//! The bookkeeping of the lcycle loop: which products still wait for their
//! parents, which are ready, which Cliffords are still running over several
//! lcycles, and which T products retry after a failed injection.
//!
//! Routing decides which products get a path in an lcycle and chance decides
//! which T injections fail; both come in as arguments, so every function here
//! is verified for every routing and every outcome.
use vstd::prelude::*;
use crate::circuit::{Circuit, deps_wf, t_count_upto, count_prefix, count_in, lemma_count_prefix_le, lemma_count_in_push};
use crate::pauliproduct::{GateType, PauliProduct, is_clifford_gate};

verus! {

/// Where each product of a circuit stands in the lcycle loop.
pub struct LcycleState {
    /// Products whose parents have all completed and that wait for a path, in order.
    pub to_schedule: Vec<usize>,
    /// Per product, how many of its parent entries have not completed yet.
    pub remaining_parents: Vec<usize>,
    /// Running Cliffords: (product, lcycles it still occupies after the current one).
    pub clifford_paths: Vec<(usize, usize)>,
    /// T products whose injection failed; they run again in the next lcycle.
    pub failed_t_paths: Vec<usize>,
    /// Products that have run successfully at least once, in order of first success.
    pub scheduled_products: Vec<usize>,
    /// Per lcycle, its number and the products that ran in it without failing.
    pub lcycle_scheduled: Vec<(usize, Vec<usize>)>,
    /// Failed T injections so far.
    pub t_gate_failures: usize,
    /// T products not yet attempted.
    pub t_products_remaining: usize,
    /// Number of the current lcycle (0 before the first).
    pub current_lcycle: usize,
}

/// The product ids of the running Cliffords.
pub open spec fn clifford_ids(cp: Seq<(usize, usize)>) -> Seq<usize> {
    cp.map_values(|e: (usize, usize)| e.0)
}

/// How many entries of `ps` name a product outside `done`.
pub open spec fn undone_count(ps: Seq<i32>, done: Set<usize>) -> nat
    decreases ps.len(),
{
    if ps.len() == 0 {
        0
    } else {
        undone_count(ps.drop_last(), done) + (if done.contains(ps.last() as usize) { 0nat } else { 1nat })
    }
}

/// The entries of `s` that are T products, in order.
pub open spec fn t_entries(prods: Seq<PauliProduct>, s: Seq<usize>) -> Seq<usize>
    decreases s.len(),
{
    if s.len() == 0 {
        s
    } else {
        let prev = t_entries(prods, s.drop_last());
        if prods[s.last() as int].gate_type == GateType::T { prev.push(s.last()) } else { prev }
    }
}

/// How often `x` occurs in `s`.
pub open spec fn count_id(s: Seq<usize>, x: usize) -> nat
    decreases s.len(),
{
    if s.len() == 0 {
        0
    } else {
        count_id(s.drop_last(), x) + (if s.last() == x { 1nat } else { 0nat })
    }
}

/// How often product `x` is recorded over all lcycles.
pub open spec fn occurrences(ls: Seq<(usize, Vec<usize>)>, x: usize) -> nat
    decreases ls.len(),
{
    if ls.len() == 0 {
        0
    } else {
        occurrences(ls.drop_last(), x) + count_id(ls.last().1@, x)
    }
}

impl LcycleState {
    /// Product `id` has completed: it ran and no longer runs as a Clifford.
    pub open spec fn is_done(&self, id: usize) -> bool {
        self.scheduled_products@.contains(id) && !clifford_ids(self.clifford_paths@).contains(id)
    }

    /// The completed products.
    pub open spec fn done_set(&self) -> Set<usize> {
        Set::new(|id: usize| self.is_done(id))
    }

    /// The lcycles product `x` has run in so far: all it needs once it has
    /// completed, those already behind it while it runs as a Clifford.
    pub open spec fn runs(&self, prods: Seq<PauliProduct>, x: usize) -> nat {
        let g = prods[x as int].gate_type;
        if self.is_done(x) {
            lcycles_needed(g)
        } else if clifford_ids(self.clifford_paths@).contains(x) {
            (lcycles_needed(g) - clifford_count(self.clifford_paths@, x)) as nat
        } else {
            0
        }
    }

    /// Product `id` has been routed at least once.
    pub open spec fn is_started(&self, id: usize) -> bool {
        self.scheduled_products@.contains(id) || self.failed_t_paths@.contains(id)
    }

    /// The state is consistent with the circuit `prods`: every product is in
    /// exactly one phase (waiting for parents, ready, running, retrying, done),
    /// and the parent counters count the parent entries not yet completed.
    pub open spec fn wf(&self, prods: Seq<PauliProduct>) -> bool {
        let n = prods.len();
        let ts = self.to_schedule@;
        let cp = self.clifford_paths@;
        let ft = self.failed_t_paths@;
        let sp = self.scheduled_products@;
        &&& self.remaining_parents@.len() == n
        &&& forall|i: int| 0 <= i < ts.len() ==> (#[trigger] ts[i]) < n
        &&& forall|i: int| 0 <= i < cp.len() ==> (#[trigger] cp[i]).0 < n && 1 <= cp[i].1 <= 2
        &&& forall|i: int| 0 <= i < ft.len() ==> (#[trigger] ft[i]) < n
        &&& forall|i: int| 0 <= i < sp.len() ==> (#[trigger] sp[i]) < n
        &&& ts.no_duplicates()
        &&& clifford_ids(cp).no_duplicates()
        &&& ft.no_duplicates()
        &&& sp.no_duplicates()
        &&& forall|id: usize| #[trigger] ts.contains(id) ==> !sp.contains(id) && !ft.contains(id)
        &&& forall|id: usize| #[trigger] clifford_ids(cp).contains(id) ==> sp.contains(id)
            && is_clifford_gate(prods[id as int].gate_type)
        &&& forall|id: usize| #[trigger] ft.contains(id) ==> !sp.contains(id) && prods[id as int].gate_type == GateType::T
        &&& forall|c: int| 0 <= c < n ==> (#[trigger] self.remaining_parents@[c]) == undone_count(prods[c].parents@, self.done_set())
        &&& forall|c: usize| c < n && (self.is_started(c) || ts.contains(c)) ==> #[trigger] self.remaining_parents@[c as int] == 0
        &&& forall|c: usize| c < n && #[trigger] self.remaining_parents@[c as int] == 0 && !self.is_started(c) ==> ts.contains(c)
        &&& self.t_gate_failures <= t_entries(prods, sp).len() + ft.len()
        &&& forall|x: usize| x < n ==> #[trigger] occurrences(self.lcycle_scheduled@, x) == self.runs(prods, x)
    }
}

proof fn lemma_undone_count_none_done(ps: Seq<i32>, done: Set<usize>)
    requires
        forall|i: int| 0 <= i < ps.len() ==> ps[i] >= 0 && !done.contains(#[trigger] ps[i] as usize),
    ensures
        undone_count(ps, done) == ps.len(),
    decreases ps.len(),
{
    if ps.len() > 0 {
        lemma_undone_count_none_done(ps.drop_last(), done);
        assert(!done.contains(ps[ps.len() - 1] as usize));
    }
}

proof fn lemma_undone_count_all_done(ps: Seq<i32>, done: Set<usize>)
    requires
        forall|i: int| 0 <= i < ps.len() ==> done.contains(#[trigger] ps[i] as usize),
    ensures
        undone_count(ps, done) == 0,
    decreases ps.len(),
{
    if ps.len() > 0 {
        lemma_undone_count_all_done(ps.drop_last(), done);
        assert(done.contains(ps[ps.len() - 1] as usize));
    }
}

/// Every product below `c` has been scheduled, when nothing is ready,
/// running or retrying.
proof fn lemma_scheduled_below(prods: Seq<PauliProduct>, st: LcycleState, c: nat)
    requires
        deps_wf(prods),
        st.wf(prods),
        st.to_schedule@.len() == 0,
        st.clifford_paths@.len() == 0,
        st.failed_t_paths@.len() == 0,
        c <= prods.len(),
    ensures
        forall|id: usize| id < c ==> st.scheduled_products@.contains(id),
    decreases c,
{
    if c > 0 {
        let k = (c - 1) as nat;
        lemma_scheduled_below(prods, st, k);
        let ps = prods[k as int].parents@;
        assert forall|i: int| 0 <= i < ps.len() implies st.done_set().contains(#[trigger] ps[i] as usize) by {
            assert(0 <= ps[i] < k);
            assert(st.scheduled_products@.contains(ps[i] as usize));
            assert(!clifford_ids(st.clifford_paths@).contains(ps[i] as usize));
        }
        lemma_undone_count_all_done(ps, st.done_set());
        assert(st.remaining_parents@[k as int] == 0);
        let kk = k as usize;
        if !st.scheduled_products@.contains(kk) {
            assert(!st.failed_t_paths@.contains(kk));
            assert(!st.is_started(kk));
            assert(st.remaining_parents@[kk as int] == 0);
            assert(st.to_schedule@.contains(kk));
        }
    }
}

/// When nothing is ready, running or retrying, every product of the circuit
/// has been scheduled: the lcycle loop leaves no product behind.
pub proof fn lemma_finished_all_scheduled(prods: Seq<PauliProduct>, st: LcycleState)
    requires
        deps_wf(prods),
        st.wf(prods),
        st.to_schedule@.len() == 0,
        st.clifford_paths@.len() == 0,
        st.failed_t_paths@.len() == 0,
    ensures
        forall|id: usize| id < prods.len() ==> st.scheduled_products@.contains(id),
{
    lemma_scheduled_below(prods, st, prods.len());
}

/// When the loop is over, every product is recorded in exactly as many
/// lcycles as its gate needs: once for T and M, twice for CX, three times
/// for S and SX.
pub proof fn lemma_finished_runs(prods: Seq<PauliProduct>, st: LcycleState)
    requires
        deps_wf(prods),
        st.wf(prods),
        st.to_schedule@.len() == 0,
        st.clifford_paths@.len() == 0,
        st.failed_t_paths@.len() == 0,
    ensures
        forall|x: usize| x < prods.len() ==> #[trigger] occurrences(st.lcycle_scheduled@, x) == lcycles_needed(prods[x as int].gate_type),
{
    lemma_scheduled_below(prods, st, prods.len());
    assert forall|x: usize| x < prods.len() implies #[trigger] occurrences(st.lcycle_scheduled@, x)
        == lcycles_needed(prods[x as int].gate_type) by {
        assert(st.scheduled_products@.contains(x));
        assert(!clifford_ids(st.clifford_paths@).contains(x));
        assert(st.is_done(x));
    }
}

/// Removes the entry at `i` by moving the last entry into its place, as a
/// swap-removing map does.
pub open spec fn swap_removed<A>(s: Seq<A>, i: int) -> Seq<A> {
    s.update(i, s.last()).drop_last()
}

proof fn lemma_swap_removed(s: Seq<usize>, i: int)
    requires
        s.no_duplicates(),
        0 <= i < s.len(),
    ensures
        swap_removed(s, i).no_duplicates(),
        swap_removed(s, i).len() == s.len() - 1,
        forall|y: usize| #[trigger] swap_removed(s, i).contains(y) <==> s.contains(y) && y != s[i],
{
    let r = swap_removed(s, i);
    assert forall|y: usize| #[trigger] r.contains(y) <==> s.contains(y) && y != s[i] by {
        if r.contains(y) {
            let j = choose|j: int| 0 <= j < r.len() && r[j] == y;
            if j == i {
                assert(y == s[s.len() - 1]);
                assert(s.len() - 1 != i);
            } else {
                assert(y == s[j]);
            }
        }
        if s.contains(y) && y != s[i] {
            let j = choose|j: int| 0 <= j < s.len() && s[j] == y;
            if j == s.len() - 1 {
                assert(r[i] == y);
            } else {
                assert(r[j] == y);
            }
        }
    }
    assert forall|a: int, b: int| 0 <= a < r.len() && 0 <= b < r.len() && a != b implies r[a] != r[b] by {
        let sa = if a == i { s.len() - 1 } else { a };
        let sb = if b == i { s.len() - 1 } else { b };
        assert(r[a] == s[sa] && r[b] == s[sb]);
    }
}

/// Position `k` of `pp` is a first attempt at a T product whose injection failed.
pub open spec fn fails_at(prods: Seq<PauliProduct>, ft: Seq<usize>, pp: Seq<usize>, ok: Seq<bool>, k: int) -> bool {
    prods[pp[k] as int].gate_type == GateType::T && !ft.contains(pp[k]) && !ok[k]
}

/// The failed first attempts among the first `k` entries of `pp`, in order.
pub open spec fn failed_upto(prods: Seq<PauliProduct>, ft: Seq<usize>, pp: Seq<usize>, ok: Seq<bool>, k: int) -> Seq<usize>
    decreases k,
{
    if k <= 0 {
        Seq::empty()
    } else {
        let prev = failed_upto(prods, ft, pp, ok, k - 1);
        if fails_at(prods, ft, pp, ok, k - 1) { prev.push(pp[k - 1]) } else { prev }
    }
}

/// The retried T products among the first `k` entries of `pp`, in order.
pub open spec fn recovered_upto(prods: Seq<PauliProduct>, ft: Seq<usize>, pp: Seq<usize>, k: int) -> Seq<usize>
    decreases k,
{
    if k <= 0 {
        Seq::empty()
    } else {
        let prev = recovered_upto(prods, ft, pp, k - 1);
        if prods[pp[k - 1] as int].gate_type == GateType::T && ft.contains(pp[k - 1]) { prev.push(pp[k - 1]) } else { prev }
    }
}

/// The retrying T products once the outcomes of the first `k` entries of
/// `pp` are in: a failed product is added (at the end), any other T product
/// of `pp` is swap-removed.
pub open spec fn t_retry_upto(prods: Seq<PauliProduct>, ft: Seq<usize>, pp: Seq<usize>, failed: Seq<usize>, k: int) -> Seq<usize>
    decreases k,
{
    if k <= 0 {
        ft
    } else {
        let s = t_retry_upto(prods, ft, pp, failed, k - 1);
        let id = pp[k - 1];
        if prods[id as int].gate_type != GateType::T {
            s
        } else if failed.contains(id) {
            if s.contains(id) { s } else { s.push(id) }
        } else if s.contains(id) {
            swap_removed(s, s.index_of(id))
        } else {
            s
        }
    }
}

/// Whether `x` occurs in `v`.
fn contains_id(v: &Vec<usize>, x: usize) -> (r: bool)
    ensures
        r == v@.contains(x),
{
    let mut i: usize = 0;
    while i < v.len()
        invariant
            i <= v@.len(),
            forall|j: int| 0 <= j < i ==> v@[j] != x,
        decreases v@.len() - i,
    {
        if v[i] == x {
            return true;
        }
        i += 1;
    }
    false
}

/// The position of `x` in `v`, whose entries are distinct.
fn position_of(v: &Vec<usize>, x: usize) -> (r: Option<usize>)
    requires
        v@.no_duplicates(),
    ensures
        match r {
            Some(i) => i < v@.len() && v@[i as int] == x && v@.contains(x) && i as int == v@.index_of(x),
            None => !v@.contains(x),
        },
{
    let mut i: usize = 0;
    while i < v.len()
        invariant
            i <= v@.len(),
            v@.no_duplicates(),
            forall|j: int| 0 <= j < i ==> v@[j] != x,
        decreases v@.len() - i,
    {
        if v[i] == x {
            proof {
                assert(v@.contains(x));
                let j = v@.index_of(x);
                assert(v@[j] == x);
                assert(v@[i as int] == x);
                assert(j == i as int);
            }
            return Some(i);
        }
        i += 1;
    }
    None
}

/// The running count of Clifford `id` (meaningful when it runs).
pub open spec fn clifford_count(cp: Seq<(usize, usize)>, id: usize) -> usize {
    cp[clifford_ids(cp).index_of(id)].1
}

/// Product `id` completes in this lcycle and releases its children: a
/// Clifford in its last lcycle, a T product whose injection did not fail,
/// any other product at once.
pub open spec fn releases(prods: Seq<PauliProduct>, cp: Seq<(usize, usize)>, failed: Seq<usize>, id: usize) -> bool {
    let g = prods[id as int].gate_type;
    if is_clifford_gate(g) {
        clifford_ids(cp).contains(id) && clifford_count(cp, id) != 2
    } else if g == GateType::T {
        !failed.contains(id)
    } else {
        true
    }
}

/// The parent counters and the newly ready products after the first `j`
/// child entries `kids` have each lost one parent.
pub open spec fn release_kids(rem: Seq<usize>, ready: Seq<usize>, kids: Seq<i32>, j: int) -> (Seq<usize>, Seq<usize>)
    decreases j,
{
    if j <= 0 {
        (rem, ready)
    } else {
        let prev = release_kids(rem, ready, kids, j - 1);
        let c = kids[j - 1] as int;
        let r2 = prev.0.update(c, (prev.0[c] - 1) as usize);
        (r2, if r2[c] == 0 && !prev.1.contains(c as usize) { prev.1.push(c as usize) } else { prev.1 })
    }
}

/// The parent counters and the newly ready products, in order, once the
/// products among the first `k` entries of `pp` that complete have released
/// their children.
pub open spec fn release_upto(prods: Seq<PauliProduct>, cp: Seq<(usize, usize)>, failed: Seq<usize>, pp: Seq<usize>,
    rem: Seq<usize>, k: int) -> (Seq<usize>, Seq<usize>)
    decreases k,
{
    if k <= 0 {
        (rem, Seq::empty())
    } else {
        let prev = release_upto(prods, cp, failed, pp, rem, k - 1);
        if releases(prods, cp, failed, pp[k - 1]) {
            let kids = prods[pp[k - 1] as int].children@;
            release_kids(prev.0, prev.1, kids, kids.len() as int)
        } else {
            prev
        }
    }
}

/// How many child entries naming `c` the completing products among the
/// first `k` entries of `pp` hold.
pub open spec fn release_total(prods: Seq<PauliProduct>, cp: Seq<(usize, usize)>, failed: Seq<usize>, pp: Seq<usize>,
    k: int, c: int) -> nat
    decreases k,
{
    if k <= 0 {
        0
    } else {
        release_total(prods, cp, failed, pp, k - 1, c) + (if releases(prods, cp, failed, pp[k - 1]) {
            count_in(prods[pp[k - 1] as int].children@, c)
        } else {
            0nat
        })
    }
}

proof fn lemma_release_total_mono(prods: Seq<PauliProduct>, cp: Seq<(usize, usize)>, failed: Seq<usize>, pp: Seq<usize>,
    k: int, m: int, c: int)
    requires
        0 <= k <= m,
    ensures
        release_total(prods, cp, failed, pp, k, c) <= release_total(prods, cp, failed, pp, m, c),
    decreases m - k,
{
    if k < m {
        lemma_release_total_mono(prods, cp, failed, pp, k, m - 1, c);
    }
}

/// The position of running Clifford `id`, whose ids are distinct.
fn clifford_position(cp: &Vec<(usize, usize)>, id: usize) -> (r: Option<usize>)
    requires
        clifford_ids(cp@).no_duplicates(),
    ensures
        match r {
            Some(i) => i < cp@.len() && cp@[i as int].0 == id && clifford_ids(cp@).contains(id)
                && i as int == clifford_ids(cp@).index_of(id),
            None => !clifford_ids(cp@).contains(id),
        },
{
    let ghost ids = clifford_ids(cp@);
    let mut i: usize = 0;
    while i < cp.len()
        invariant
            i <= cp@.len(),
            ids == clifford_ids(cp@),
            ids.len() == cp@.len(),
            ids.no_duplicates(),
            forall|j: int| 0 <= j < i ==> ids[j] != id,
        decreases cp@.len() - i,
    {
        if cp[i].0 == id {
            proof {
                assert(ids[i as int] == id);
                assert(ids.contains(id));
                let j = ids.index_of(id);
                assert(ids[j] == id);
                assert(j == i as int);
            }
            return Some(i);
        }
        proof { assert(ids[i as int] == cp@[i as int].0); }
        i += 1;
    }
    None
}

impl LcycleState {
    /// Lets each product of `pp` that completes in this lcycle release its
    /// children: every child entry loses one parent, and a child whose last
    /// parent completes becomes ready. Returns the newly ready children, in
    /// the order in which they became ready.
    fn unlock_children(&mut self, circuit: &Circuit, pp: &Vec<usize>, failed: &Vec<usize>) -> (ready: Vec<usize>)
        requires
            deps_wf(circuit.products@),
            forall|i: int| 0 <= i < pp@.len() ==> (#[trigger] pp@[i]) < circuit.products@.len(),
            old(self).remaining_parents@.len() == circuit.products@.len(),
            clifford_ids(old(self).clifford_paths@).no_duplicates(),
            forall|c: int| 0 <= c < circuit.products@.len() ==> release_total(circuit.products@, old(self).clifford_paths@,
                failed@, pp@, pp@.len() as int, c) <= #[trigger] old(self).remaining_parents@[c],
        ensures
            (final(self).remaining_parents@, ready@) == release_upto(circuit.products@, old(self).clifford_paths@, failed@, pp@,
                old(self).remaining_parents@, pp@.len() as int),
            final(self).remaining_parents@.len() == circuit.products@.len(),
            forall|c: int| 0 <= c < circuit.products@.len() ==> #[trigger] final(self).remaining_parents@[c]
                == old(self).remaining_parents@[c] - release_total(circuit.products@, old(self).clifford_paths@, failed@, pp@,
                pp@.len() as int, c),
            ready@.no_duplicates(),
            forall|i: int| 0 <= i < ready@.len() ==> (#[trigger] ready@[i]) < circuit.products@.len(),
            forall|c: usize| c < circuit.products@.len() ==> (#[trigger] ready@.contains(c) <==>
                old(self).remaining_parents@[c as int] > 0 && final(self).remaining_parents@[c as int] == 0),
            final(self).to_schedule == old(self).to_schedule,
            final(self).clifford_paths == old(self).clifford_paths,
            final(self).failed_t_paths == old(self).failed_t_paths,
            final(self).scheduled_products == old(self).scheduled_products,
            final(self).lcycle_scheduled == old(self).lcycle_scheduled,
            final(self).t_gate_failures == old(self).t_gate_failures,
            final(self).t_products_remaining == old(self).t_products_remaining,
            final(self).current_lcycle == old(self).current_lcycle,
    {
        let ghost prods = circuit.products@;
        let ghost n = prods.len();
        let ghost cp = self.clifford_paths@;
        let ghost rem0 = self.remaining_parents@;
        let mut ready: Vec<usize> = Vec::new();
        let mut k: usize = 0;
        while k < pp.len()
            invariant
                k <= pp@.len(),
                prods == circuit.products@,
                n == prods.len(),
                deps_wf(prods),
                forall|i: int| 0 <= i < pp@.len() ==> (#[trigger] pp@[i]) < n,
                cp == self.clifford_paths@,
                clifford_ids(cp).no_duplicates(),
                rem0.len() == n,
                forall|c: int| 0 <= c < n ==> release_total(prods, cp, failed@, pp@, pp@.len() as int, c) <= #[trigger] rem0[c],
                (self.remaining_parents@, ready@) == release_upto(prods, cp, failed@, pp@, rem0, k as int),
                self.remaining_parents@.len() == n,
                forall|c: int| 0 <= c < n ==> #[trigger] self.remaining_parents@[c]
                    == rem0[c] - release_total(prods, cp, failed@, pp@, k as int, c),
                ready@.no_duplicates(),
                forall|i: int| 0 <= i < ready@.len() ==> (#[trigger] ready@[i]) < n,
                forall|c: usize| c < n ==> (#[trigger] ready@.contains(c) <==> rem0[c as int] > 0 && self.remaining_parents@[c as int] == 0),
                self.to_schedule == old(self).to_schedule,
                self.clifford_paths == old(self).clifford_paths,
                self.failed_t_paths == old(self).failed_t_paths,
                self.scheduled_products == old(self).scheduled_products,
                self.lcycle_scheduled == old(self).lcycle_scheduled,
                self.t_gate_failures == old(self).t_gate_failures,
                self.t_products_remaining == old(self).t_products_remaining,
                self.current_lcycle == old(self).current_lcycle,
            decreases pp@.len() - k,
        {
            let id = pp[k];
            let g = circuit.products[id].gate_type;
            let completes = if g.is_clifford() {
                match clifford_position(&self.clifford_paths, id) {
                    Some(i) => self.clifford_paths[i].1 != 2,
                    None => false,
                }
            } else if g.is_t() {
                !contains_id(failed, id)
            } else {
                true
            };
            assert(completes == releases(prods, cp, failed@, id));
            if completes {
                let kids = &circuit.products[id].children;
                let ghost st = (self.remaining_parents@, ready@);
                let mut j: usize = 0;
                while j < kids.len()
                    invariant
                        j <= kids@.len(),
                        kids@ == prods[id as int].children@,
                        prods == circuit.products@,
                        n == prods.len(),
                        deps_wf(prods),
                        0 <= id < n,
                        k < pp@.len(),
                        pp@[k as int] == id,
                        releases(prods, cp, failed@, id),
                        rem0.len() == n,
                        forall|c: int| 0 <= c < n ==> release_total(prods, cp, failed@, pp@, pp@.len() as int, c) <= #[trigger] rem0[c],
                        (self.remaining_parents@, ready@) == release_kids(st.0, st.1, kids@, j as int),
                        self.remaining_parents@.len() == n,
                        forall|c: int| 0 <= c < n ==> #[trigger] self.remaining_parents@[c]
                            == rem0[c] - release_total(prods, cp, failed@, pp@, k as int, c) - count_prefix(kids@, c, j as int),
                        ready@.no_duplicates(),
                        forall|i: int| 0 <= i < ready@.len() ==> (#[trigger] ready@[i]) < n,
                        forall|c: usize| c < n ==> (#[trigger] ready@.contains(c) <==> rem0[c as int] > 0 && self.remaining_parents@[c as int] == 0),
                        self.to_schedule == old(self).to_schedule,
                        self.clifford_paths == old(self).clifford_paths,
                        self.failed_t_paths == old(self).failed_t_paths,
                        self.scheduled_products == old(self).scheduled_products,
                        self.lcycle_scheduled == old(self).lcycle_scheduled,
                        self.t_gate_failures == old(self).t_gate_failures,
                        self.t_products_remaining == old(self).t_products_remaining,
                        self.current_lcycle == old(self).current_lcycle,
                    decreases kids@.len() - j,
                {
                    let child = kids[j];
                    proof {
                        assert(0 <= kids@[j as int] < n);
                        let c = child as int;
                        lemma_count_prefix_le(kids@, c, j as int + 1);
                        lemma_release_total_mono(prods, cp, failed@, pp@, k as int + 1, pp@.len() as int, c);
                        assert(release_total(prods, cp, failed@, pp@, k as int + 1, c)
                            == release_total(prods, cp, failed@, pp@, k as int, c) + count_in(kids@, c));
                        assert(count_prefix(kids@, c, j as int + 1) == count_prefix(kids@, c, j as int) + 1);
                    }
                    let cu = child as usize;
                    let left = self.remaining_parents[cu] - 1;
                    let ghost before = ready@;
                    let ghost rb = self.remaining_parents@;
                    self.remaining_parents.set(cu, left);
                    if left == 0 && !contains_id(&ready, cu) {
                        ready.push(cu);
                    }
                    proof {
                        assert forall|c: int| 0 <= c < n implies #[trigger] self.remaining_parents@[c]
                            == rem0[c] - release_total(prods, cp, failed@, pp@, k as int, c) - count_prefix(kids@, c, j as int + 1) by {
                            if c != cu as int {
                                assert(self.remaining_parents@[c] == rb[c]);
                            }
                        }
                        assert forall|c: usize| c < n implies (#[trigger] ready@.contains(c) <==> rem0[c as int] > 0
                            && self.remaining_parents@[c as int] == 0) by {
                            if c != cu {
                                assert(self.remaining_parents@[c as int] == rb[c as int]);
                                if ready@.contains(c) && !before.contains(c) {
                                    assert(ready@[ready@.len() - 1] == cu);
                                    let i = choose|i: int| 0 <= i < ready@.len() && ready@[i] == c;
                                    assert(i < before.len());
                                    assert(before[i] == c);
                                }
                                if before.contains(c) {
                                    let i = choose|i: int| 0 <= i < before.len() && before[i] == c;
                                    assert(ready@[i] == c);
                                }
                            } else {
                                if left == 0 && !before.contains(cu) {
                                    assert(ready@[ready@.len() - 1] == cu);
                                }
                                if before.contains(cu) {
                                    let i = choose|i: int| 0 <= i < before.len() && before[i] == cu;
                                    assert(ready@[i] == cu);
                                }
                                assert(rem0[c as int] >= 1);
                            }
                        }
                        assert forall|a: int, b: int| 0 <= a < ready@.len() && 0 <= b < ready@.len() && a != b
                            implies ready@[a] != ready@[b] by {
                            if a == before.len() as int && ready@.len() > before.len() { assert(before.contains(before[b])); }
                            if b == before.len() as int && ready@.len() > before.len() { assert(before.contains(before[a])); }
                        }
                        assert(self.remaining_parents@ =~= rb.update(child as int, (rb[child as int] - 1) as usize));
                    }
                    j += 1;
                }
                proof {
                    assert(count_prefix(kids@, 0, 0) == 0);
                    assert forall|c: int| 0 <= c < n implies #[trigger] self.remaining_parents@[c]
                        == rem0[c] - release_total(prods, cp, failed@, pp@, k as int + 1, c) by {
                        assert(count_prefix(kids@, c, kids@.len() as int) == count_in(kids@, c));
                    }
                }
            } else {
                proof {
                    assert forall|c: int| 0 <= c < n implies #[trigger] self.remaining_parents@[c]
                        == rem0[c] - release_total(prods, cp, failed@, pp@, k as int + 1, c) by {
                    }
                }
            }
            k += 1;
        }
        ready
    }
}

/// The running Cliffords once the first `k` entries of `pp` have run: a
/// running Clifford counts down and leaves when done, a Clifford that starts
/// is added with the lcycles it still needs (one for CX, two otherwise).
pub open spec fn cliffords_upto(prods: Seq<PauliProduct>, cp: Seq<(usize, usize)>, pp: Seq<usize>, k: int) -> Seq<(usize, usize)>
    decreases k,
{
    if k <= 0 {
        cp
    } else {
        let s = cliffords_upto(prods, cp, pp, k - 1);
        let id = pp[k - 1];
        let g = prods[id as int].gate_type;
        if !is_clifford_gate(g) {
            s
        } else if clifford_ids(s).contains(id) {
            let i = clifford_ids(s).index_of(id);
            if s[i].1 == 1 { swap_removed(s, i) } else { s.update(i, (id, (s[i].1 - 1) as usize)) }
        } else {
            s.push((id, if g == GateType::CX { 1usize } else { 2usize }))
        }
    }
}

/// The running Cliffords are distinct and each still needs one or two lcycles.
pub open spec fn cliffords_ok(cp: Seq<(usize, usize)>) -> bool {
    &&& clifford_ids(cp).no_duplicates()
    &&& forall|i: int| 0 <= i < cp.len() ==> 1 <= (#[trigger] cp[i]).1 <= 2
}

proof fn lemma_cliffords_swap_removed(s: Seq<(usize, usize)>, i: int)
    requires
        cliffords_ok(s),
        0 <= i < s.len(),
    ensures
        cliffords_ok(swap_removed(s, i)),
        clifford_ids(swap_removed(s, i)) =~= swap_removed(clifford_ids(s), i),
{
    let r = swap_removed(s, i);
    assert(clifford_ids(r) =~= swap_removed(clifford_ids(s), i));
    lemma_swap_removed(clifford_ids(s), i);
    assert forall|j: int| 0 <= j < r.len() implies 1 <= (#[trigger] r[j]).1 <= 2 by {
        if j == i { assert(r[j] == s[s.len() - 1]); } else { assert(r[j] == s[j]); }
    }
}

impl LcycleState {
    /// Moves the Cliffords of `pp` on: a running one counts down and leaves
    /// when it has run its last lcycle; one that starts is added with the
    /// lcycles it still needs.
    fn advance_clifford_state(&mut self, circuit: &Circuit, pp: &Vec<usize>)
        requires
            forall|i: int| 0 <= i < pp@.len() ==> (#[trigger] pp@[i]) < circuit.products@.len(),
            cliffords_ok(old(self).clifford_paths@),
        ensures
            final(self).clifford_paths@ == cliffords_upto(circuit.products@, old(self).clifford_paths@, pp@, pp@.len() as int),
            cliffords_ok(final(self).clifford_paths@),
            final(self).to_schedule == old(self).to_schedule,
            final(self).remaining_parents == old(self).remaining_parents,
            final(self).failed_t_paths == old(self).failed_t_paths,
            final(self).scheduled_products == old(self).scheduled_products,
            final(self).lcycle_scheduled == old(self).lcycle_scheduled,
            final(self).t_gate_failures == old(self).t_gate_failures,
            final(self).t_products_remaining == old(self).t_products_remaining,
            final(self).current_lcycle == old(self).current_lcycle,
    {
        let ghost prods = circuit.products@;
        let ghost cp0 = self.clifford_paths@;
        let mut k: usize = 0;
        while k < pp.len()
            invariant
                k <= pp@.len(),
                prods == circuit.products@,
                forall|i: int| 0 <= i < pp@.len() ==> (#[trigger] pp@[i]) < prods.len(),
                self.clifford_paths@ == cliffords_upto(prods, cp0, pp@, k as int),
                cliffords_ok(self.clifford_paths@),
                self.to_schedule == old(self).to_schedule,
                self.remaining_parents == old(self).remaining_parents,
                self.failed_t_paths == old(self).failed_t_paths,
                self.scheduled_products == old(self).scheduled_products,
                self.lcycle_scheduled == old(self).lcycle_scheduled,
                self.t_gate_failures == old(self).t_gate_failures,
                self.t_products_remaining == old(self).t_products_remaining,
                self.current_lcycle == old(self).current_lcycle,
            decreases pp@.len() - k,
        {
            let id = pp[k];
            let g = circuit.products[id].gate_type;
            let ghost s = self.clifford_paths@;
            if g.is_clifford() {
                match clifford_position(&self.clifford_paths, id) {
                    Some(i) => {
                        let count = self.clifford_paths[i].1;
                        if count == 1 {
                            proof { lemma_cliffords_swap_removed(s, i as int); }
                            self.clifford_paths.swap_remove(i);
                            assert(self.clifford_paths@ =~= swap_removed(s, i as int));
                        } else {
                            self.clifford_paths.set(i, (id, count - 1));
                            proof {
                                assert(clifford_ids(self.clifford_paths@) =~= clifford_ids(s));
                                assert forall|j: int| 0 <= j < self.clifford_paths@.len()
                                    implies 1 <= (#[trigger] self.clifford_paths@[j]).1 <= 2 by {
                                    if j != i as int { assert(self.clifford_paths@[j] == s[j]); }
                                }
                            }
                        }
                    },
                    None => {
                        let count: usize = if g.is_cx() { 1 } else { 2 };
                        self.clifford_paths.push((id, count));
                        proof {
                            let ids = clifford_ids(self.clifford_paths@);
                            assert(ids =~= clifford_ids(s).push(id));
                            assert forall|a: int, b: int| 0 <= a < ids.len() && 0 <= b < ids.len() && a != b
                                implies ids[a] != ids[b] by {
                                if a == s.len() { assert(clifford_ids(s).contains(ids[b])); }
                                if b == s.len() { assert(clifford_ids(s).contains(ids[a])); }
                            }
                            assert forall|j: int| 0 <= j < self.clifford_paths@.len()
                                implies 1 <= (#[trigger] self.clifford_paths@[j]).1 <= 2 by {
                                if j < s.len() { assert(self.clifford_paths@[j] == s[j]); }
                            }
                        }
                    },
                }
            }
            k += 1;
        }
    }
}

/// The entries of `s` that `drop` does not hold, in order.
pub open spec fn without(s: Seq<usize>, drop: Seq<usize>) -> Seq<usize>
    decreases s.len(),
{
    if s.len() == 0 {
        s
    } else {
        let prev = without(s.drop_last(), drop);
        if drop.contains(s.last()) { prev } else { prev.push(s.last()) }
    }
}

/// `s` with the entries among the first `k` of `xs` that it lacks appended
/// in order, as an insertion-ordered set grows.
pub open spec fn append_new(s: Seq<usize>, xs: Seq<usize>, k: int) -> Seq<usize>
    decreases k,
{
    if k <= 0 {
        s
    } else {
        let prev = append_new(s, xs, k - 1);
        if prev.contains(xs[k - 1]) { prev } else { prev.push(xs[k - 1]) }
    }
}

/// How many of the first `k` entries of `pp` are first attempts at a T product.
pub open spec fn first_attempts(prods: Seq<PauliProduct>, ft: Seq<usize>, pp: Seq<usize>, k: int) -> nat
    decreases k,
{
    if k <= 0 {
        0
    } else {
        first_attempts(prods, ft, pp, k - 1) + (if prods[pp[k - 1] as int].gate_type == GateType::T && !ft.contains(pp[k - 1]) {
            1nat
        } else {
            0nat
        })
    }
}

/// The entries of `s` that `drop` does not hold, in order.
fn retain_missing(s: &Vec<usize>, drop: &Vec<usize>) -> (r: Vec<usize>)
    ensures
        r@ == without(s@, drop@),
{
    let mut r: Vec<usize> = Vec::new();
    let mut i: usize = 0;
    while i < s.len()
        invariant
            i <= s@.len(),
            r@ == without(s@.take(i as int), drop@),
        decreases s@.len() - i,
    {
        assert(s@.take(i as int + 1).drop_last() =~= s@.take(i as int));
        if !contains_id(drop, s[i]) {
            r.push(s[i]);
        }
        i += 1;
    }
    assert(s@.take(s@.len() as int) =~= s@);
    r
}

impl LcycleState {
    /// Settles the T products of `pp`: a first attempt fails where `ok` says
    /// so, a retry always succeeds. Returns the failed first attempts and the
    /// retries; failed products are kept for the next lcycle, the other T
    /// products of `pp` leave the retry list.
    fn process_t_gate_outcomes(&mut self, circuit: &Circuit, pp: &Vec<usize>, ok: &Vec<bool>) -> (r: (Vec<usize>, Vec<usize>))
        requires
            forall|i: int| 0 <= i < pp@.len() ==> (#[trigger] pp@[i]) < circuit.products@.len(),
            ok@.len() == pp@.len(),
            old(self).failed_t_paths@.no_duplicates(),
            old(self).t_gate_failures + pp@.len() <= usize::MAX,
        ensures
            r.0@ == failed_upto(circuit.products@, old(self).failed_t_paths@, pp@, ok@, pp@.len() as int),
            r.1@ == recovered_upto(circuit.products@, old(self).failed_t_paths@, pp@, pp@.len() as int),
            final(self).failed_t_paths@ == t_retry_upto(circuit.products@, old(self).failed_t_paths@, pp@, r.0@, pp@.len() as int),
            final(self).failed_t_paths@.no_duplicates(),
            final(self).t_gate_failures == old(self).t_gate_failures + r.0@.len(),
            final(self).to_schedule == old(self).to_schedule,
            final(self).remaining_parents == old(self).remaining_parents,
            final(self).clifford_paths == old(self).clifford_paths,
            final(self).scheduled_products == old(self).scheduled_products,
            final(self).lcycle_scheduled == old(self).lcycle_scheduled,
            final(self).t_products_remaining == old(self).t_products_remaining,
            final(self).current_lcycle == old(self).current_lcycle,
    {
        let ghost prods = circuit.products@;
        let ghost ft0 = self.failed_t_paths@;
        let ghost tgf0 = self.t_gate_failures;
        let mut failed: Vec<usize> = Vec::new();
        let mut recovered: Vec<usize> = Vec::new();
        let mut k: usize = 0;
        while k < pp.len()
            invariant
                k <= pp@.len(),
                prods == circuit.products@,
                ok@.len() == pp@.len(),
                forall|i: int| 0 <= i < pp@.len() ==> (#[trigger] pp@[i]) < prods.len(),
                self.failed_t_paths@ == ft0,
                failed@ == failed_upto(prods, ft0, pp@, ok@, k as int),
                recovered@ == recovered_upto(prods, ft0, pp@, k as int),
                failed@.len() <= k,
                self.t_gate_failures == tgf0 + failed@.len(),
                tgf0 + pp@.len() <= usize::MAX,
                self.to_schedule == old(self).to_schedule,
                self.remaining_parents == old(self).remaining_parents,
                self.clifford_paths == old(self).clifford_paths,
                self.scheduled_products == old(self).scheduled_products,
                self.lcycle_scheduled == old(self).lcycle_scheduled,
                self.t_products_remaining == old(self).t_products_remaining,
                self.current_lcycle == old(self).current_lcycle,
            decreases pp@.len() - k,
        {
            let id = pp[k];
            if circuit.products[id].gate_type.is_t() {
                if contains_id(&self.failed_t_paths, id) {
                    recovered.push(id);
                } else if !ok[k] {
                    failed.push(id);
                    self.t_gate_failures += 1;
                }
            }
            k += 1;
        }
        let mut k: usize = 0;
        while k < pp.len()
            invariant
                k <= pp@.len(),
                prods == circuit.products@,
                forall|i: int| 0 <= i < pp@.len() ==> (#[trigger] pp@[i]) < prods.len(),
                self.failed_t_paths@ == t_retry_upto(prods, ft0, pp@, failed@, k as int),
                self.failed_t_paths@.no_duplicates(),
                self.t_gate_failures == tgf0 + failed@.len(),
                self.to_schedule == old(self).to_schedule,
                self.remaining_parents == old(self).remaining_parents,
                self.clifford_paths == old(self).clifford_paths,
                self.scheduled_products == old(self).scheduled_products,
                self.lcycle_scheduled == old(self).lcycle_scheduled,
                self.t_products_remaining == old(self).t_products_remaining,
                self.current_lcycle == old(self).current_lcycle,
            decreases pp@.len() - k,
        {
            let id = pp[k];
            let ghost s = self.failed_t_paths@;
            if circuit.products[id].gate_type.is_t() {
                if contains_id(&failed, id) {
                    if !contains_id(&self.failed_t_paths, id) {
                        self.failed_t_paths.push(id);
                        proof {
                            assert forall|a: int, b: int| 0 <= a < self.failed_t_paths@.len() && 0 <= b < self.failed_t_paths@.len()
                                && a != b implies self.failed_t_paths@[a] != self.failed_t_paths@[b] by {
                                if a == s.len() { assert(s[b] == self.failed_t_paths@[b]); assert(s.contains(s[b])); }
                                if b == s.len() { assert(s[a] == self.failed_t_paths@[a]); assert(s.contains(s[a])); }
                            }
                        }
                    }
                } else {
                    match position_of(&self.failed_t_paths, id) {
                        Some(i) => {
                            proof { lemma_swap_removed(s, i as int); }
                            self.failed_t_paths.swap_remove(i);
                            assert(self.failed_t_paths@ =~= swap_removed(s, i as int));
                        },
                        None => {},
                    }
                }
            }
            k += 1;
        }
        (failed, recovered)
    }
}

impl LcycleState {
    /// The state before the first lcycle: the products without parents are
    /// ready, every other product waits for all its parent entries, and every
    /// T product is still to be attempted.
    pub fn new(circuit: &Circuit) -> (st: Self)
        requires
            deps_wf(circuit.products@),
        ensures
            st.wf(circuit.products@),
            forall|a: int, b: int| 0 <= a < b < st.to_schedule@.len() ==> st.to_schedule@[a] < st.to_schedule@[b],
            forall|id: usize| #[trigger] st.to_schedule@.contains(id) <==> id < circuit.products@.len()
                && circuit.products@[id as int].parents@.len() == 0,
            forall|c: int| 0 <= c < circuit.products@.len() ==> #[trigger] st.remaining_parents@[c] == circuit.products@[c].parents@.len(),
            st.clifford_paths@.len() == 0,
            st.failed_t_paths@.len() == 0,
            st.scheduled_products@.len() == 0,
            st.lcycle_scheduled@.len() == 0,
            st.t_gate_failures == 0,
            st.t_products_remaining == t_count_upto(circuit.products@, circuit.products@.len() as int),
            st.current_lcycle == 0,
    {
        let ghost prods = circuit.products@;
        let to_schedule = circuit.initial_products();
        let mut remaining: Vec<usize> = Vec::new();
        let mut num_t: usize = 0;
        let mut k: usize = 0;
        while k < circuit.products.len()
            invariant
                k <= prods.len(),
                prods == circuit.products@,
                remaining@.len() == k,
                forall|c: int| 0 <= c < k ==> #[trigger] remaining@[c] == prods[c].parents@.len(),
                num_t == t_count_upto(prods, k as int),
                num_t <= k,
            decreases prods.len() - k,
        {
            remaining.push(circuit.products[k].parents.len());
            if circuit.products[k].gate_type.is_t() {
                num_t += 1;
            }
            k += 1;
        }
        let st = LcycleState {
            to_schedule,
            remaining_parents: remaining,
            clifford_paths: Vec::new(),
            failed_t_paths: Vec::new(),
            scheduled_products: Vec::new(),
            lcycle_scheduled: Vec::new(),
            t_gate_failures: 0,
            t_products_remaining: num_t,
            current_lcycle: 0,
        };
        proof {
            let ts = st.to_schedule@;
            assert(clifford_ids(st.clifford_paths@) =~= Seq::<usize>::empty());
            assert forall|id: usize| #[trigger] ts.contains(id) <==> id < prods.len()
                && prods[id as int].parents@.len() == 0 by {
                if ts.contains(id) {
                    let j = choose|j: int| 0 <= j < ts.len() && ts[j] == id;
                    assert(ts[j] < prods.len());
                }
                if id < prods.len() && prods[id as int].parents@.len() == 0 {
                    assert(crate::circuit::in_usizes(ts, id as int));
                    let j = choose|j: int| 0 <= j < ts.len() && #[trigger] ts[j] as int == id as int;
                    assert(ts[j] == id);
                }
            }
            assert(ts.no_duplicates()) by {
                assert forall|a: int, b: int| 0 <= a < ts.len() && 0 <= b < ts.len() && a != b implies ts[a] != ts[b] by {
                    if a < b { assert(ts[a] < ts[b]); } else { assert(ts[b] < ts[a]); }
                }
            }
            assert forall|c: int| 0 <= c < prods.len() implies
                (#[trigger] st.remaining_parents@[c]) == undone_count(prods[c].parents@, st.done_set()) by {
                let ps = prods[c].parents@;
                assert forall|i: int| 0 <= i < ps.len() implies ps[i] >= 0 && !st.done_set().contains(#[trigger] ps[i] as usize) by {
                    assert(0 <= ps[i] < c);
                    assert(!st.scheduled_products@.contains(ps[i] as usize));
                }
                lemma_undone_count_none_done(ps, st.done_set());
            }
            assert forall|x: usize| x < prods.len() implies #[trigger] occurrences(st.lcycle_scheduled@, x) == st.runs(prods, x) by {
                assert(!st.scheduled_products@.contains(x));
            }
            assert forall|c: usize| c < prods.len() && #[trigger] st.remaining_parents@[c as int] == 0 && !st.is_started(c)
                implies ts.contains(c) by {
                assert(prods[c as int].parents@.len() == 0);
            }
            assert forall|c: usize| c < prods.len() && (st.is_started(c) || ts.contains(c))
                implies #[trigger] st.remaining_parents@[c as int] == 0 by {
                if ts.contains(c) {
                    assert(prods[c as int].parents@.len() == 0);
                }
            }
        }
        st
    }

    /// Nothing is ready, running or retrying: the lcycle loop is over.
    pub fn is_finished(&self) -> (r: bool)
        ensures
            r == (self.to_schedule@.len() == 0 && self.clifford_paths@.len() == 0 && self.failed_t_paths@.len() == 0),
    {
        self.to_schedule.len() == 0 && self.clifford_paths.len() == 0 && self.failed_t_paths.len() == 0
    }
}

/// A list of distinct ids below `n` has at most `n` entries.
proof fn lemma_distinct_bounded(s: Seq<usize>, n: nat)
    requires
        s.no_duplicates(),
        forall|i: int| 0 <= i < s.len() ==> (#[trigger] s[i]) < n,
    ensures
        s.len() <= n,
    decreases n,
{
    if n == 0 {
        if s.len() > 0 { assert(s[0] < 0); }
    } else {
        let top = (n - 1) as usize;
        if s.contains(top) {
            let i = s.index_of(top);
            let t = s.remove(i);
            assert forall|j: int| 0 <= j < t.len() implies (#[trigger] t[j]) < (n - 1) as nat by {
                let sj = if j < i { j } else { j + 1 };
                assert(t[j] == s[sj]);
                assert(sj != i);
            }
            assert forall|a: int, b: int| 0 <= a < t.len() && 0 <= b < t.len() && a != b implies t[a] != t[b] by {
                let sa = if a < i { a } else { a + 1 };
                let sb = if b < i { b } else { b + 1 };
                assert(t[a] == s[sa] && t[b] == s[sb]);
            }
            lemma_distinct_bounded(t, (n - 1) as nat);
        } else {
            assert forall|j: int| 0 <= j < s.len() implies (#[trigger] s[j]) < (n - 1) as nat by {
                assert(s[j] != top);
            }
            lemma_distinct_bounded(s, (n - 1) as nat);
        }
    }
}

proof fn lemma_t_entries(prods: Seq<PauliProduct>, s: Seq<usize>)
    ensures
        forall|x: usize| #[trigger] t_entries(prods, s).contains(x) <==> s.contains(x) && prods[x as int].gate_type == GateType::T,
        s.no_duplicates() ==> t_entries(prods, s).no_duplicates(),
    decreases s.len(),
{
    if s.len() > 0 {
        let t = s.drop_last();
        lemma_t_entries(prods, t);
        let w = t_entries(prods, s);
        let wt = t_entries(prods, t);
        let keep = prods[s.last() as int].gate_type == GateType::T;
        assert forall|x: usize| #[trigger] w.contains(x) <==> s.contains(x) && prods[x as int].gate_type == GateType::T by {
            if s.contains(x) && prods[x as int].gate_type == GateType::T {
                let i = choose|i: int| 0 <= i < s.len() && s[i] == x;
                if i < s.len() - 1 {
                    assert(t[i] == x);
                    assert(wt.contains(x));
                    let j = choose|j: int| 0 <= j < wt.len() && wt[j] == x;
                    if keep { assert(w[j] == x); }
                } else {
                    assert(w[w.len() - 1] == x);
                }
            }
            if w.contains(x) {
                let j = choose|j: int| 0 <= j < w.len() && w[j] == x;
                if keep && j == w.len() - 1 {
                    assert(s[s.len() - 1] == x);
                } else {
                    assert(wt[j] == x);
                    assert(wt.contains(x));
                    let i = choose|i: int| 0 <= i < t.len() && t[i] == x;
                    assert(s[i] == x);
                }
            }
        }
        if s.no_duplicates() {
            assert(t.no_duplicates()) by {
                assert forall|a: int, b: int| 0 <= a < t.len() && 0 <= b < t.len() && a != b implies t[a] != t[b] by {
                    assert(t[a] == s[a] && t[b] == s[b]);
                }
            }
            if keep {
                assert(!t.contains(s.last())) by {
                    if t.contains(s.last()) {
                        let i = choose|i: int| 0 <= i < t.len() && t[i] == s.last();
                        assert(s[i] == s[s.len() - 1]);
                    }
                }
                assert forall|a: int, b: int| 0 <= a < w.len() && 0 <= b < w.len() && a != b implies w[a] != w[b] by {
                    if a == w.len() - 1 { assert(wt.contains(w[b])); }
                    if b == w.len() - 1 { assert(wt.contains(w[a])); }
                }
            }
        }
    }
}

/// A list of distinct T products below `m` is no longer than the number of
/// T products below `m`.
proof fn lemma_distinct_t_bounded(prods: Seq<PauliProduct>, s: Seq<usize>, m: nat)
    requires
        s.no_duplicates(),
        m <= prods.len(),
        forall|i: int| 0 <= i < s.len() ==> (#[trigger] s[i]) < m && prods[s[i] as int].gate_type == GateType::T,
    ensures
        s.len() <= t_count_upto(prods, m as int),
    decreases m,
{
    if m == 0 {
        if s.len() > 0 { assert(s[0] < 0); }
    } else {
        let top = m - 1;
        if exists|i: int| 0 <= i < s.len() && s[i] as int == top {
            let i = choose|i: int| 0 <= i < s.len() && s[i] as int == top;
            let t = s.remove(i);
            assert(prods[top as int].gate_type == GateType::T);
            assert forall|j: int| 0 <= j < t.len() implies (#[trigger] t[j]) < (m - 1) as nat
                && prods[t[j] as int].gate_type == GateType::T by {
                let sj = if j < i { j } else { j + 1 };
                assert(t[j] == s[sj]);
                assert(sj != i);
            }
            assert forall|a: int, b: int| 0 <= a < t.len() && 0 <= b < t.len() && a != b implies t[a] != t[b] by {
                let sa = if a < i { a } else { a + 1 };
                let sb = if b < i { b } else { b + 1 };
                assert(t[a] == s[sa] && t[b] == s[sb]);
            }
            lemma_distinct_t_bounded(prods, t, (m - 1) as nat);
        } else {
            assert forall|j: int| 0 <= j < s.len() implies (#[trigger] s[j]) < (m - 1) as nat
                && prods[s[j] as int].gate_type == GateType::T by {
                assert(s[j] as int != top);
            }
            lemma_distinct_t_bounded(prods, s, (m - 1) as nat);
        }
    }
}

/// Each T product fails its injection at most once: the failure count never
/// exceeds the number of T products of the circuit.
pub proof fn lemma_failures_bounded(prods: Seq<PauliProduct>, st: LcycleState)
    requires
        st.wf(prods),
    ensures
        st.t_gate_failures <= t_count_upto(prods, prods.len() as int),
{
    let sp = st.scheduled_products@;
    let ft = st.failed_t_paths@;
    let ts = t_entries(prods, sp);
    lemma_t_entries(prods, sp);
    let both = ts + ft;
    lemma_concat_contains(ts, ft);
    assert forall|a: int, b: int| 0 <= a < both.len() && 0 <= b < both.len() && a != b implies both[a] != both[b] by {
        if a < ts.len() && b < ts.len() {
        } else if a >= ts.len() && b >= ts.len() {
            assert(both[a] == ft[a - ts.len()] && both[b] == ft[b - ts.len()]);
        } else if a < ts.len() {
            assert(ts.contains(both[a]));
            assert(ft.contains(both[b]));
        } else {
            assert(ts.contains(both[b]));
            assert(ft.contains(both[a]));
        }
    }
    assert forall|i: int| 0 <= i < both.len() implies (#[trigger] both[i]) < prods.len()
        && prods[both[i] as int].gate_type == GateType::T by {
        assert(both.contains(both[i]));
        if ts.contains(both[i]) {
            let j = choose|j: int| 0 <= j < sp.len() && sp[j] == both[i];
            assert(sp[j] < prods.len());
        } else {
            let j = choose|j: int| 0 <= j < ft.len() && ft[j] == both[i];
            assert(ft[j] < prods.len());
        }
    }
    lemma_distinct_t_bounded(prods, both, prods.len());
}

proof fn lemma_wf_bounds(prods: Seq<PauliProduct>, st: LcycleState, pp: Seq<usize>)
    requires
        deps_wf(prods),
        st.wf(prods),
        st.is_lcycle_routing(pp),
    ensures
        forall|i: int| 0 <= i < pp.len() ==> (#[trigger] pp[i]) < prods.len(),
        cliffords_ok(st.clifford_paths@),
        st.failed_t_paths@.no_duplicates(),
        st.t_gate_failures + pp.len() <= usize::MAX,
{
    let n = prods.len();
    let c = st.carried();
    let ids = clifford_ids(st.clifford_paths@);
    let ft = st.failed_t_paths@;
    let sp = st.scheduled_products@;
    assert forall|i: int| 0 <= i < pp.len() implies (#[trigger] pp[i]) < n by {
        if i < c.len() {
            assert(pp[i] == pp.subrange(0, c.len() as int)[i]);
            if i < ids.len() {
                assert(c[i] == ids[i]);
                assert(ids[i] == st.clifford_paths@[i].0);
            } else {
                assert(c[i] == ft[i - ids.len()]);
            }
        } else {
            assert(st.to_schedule@.contains(pp[i]));
            let j = choose|j: int| 0 <= j < st.to_schedule@.len() && st.to_schedule@[j] == pp[i];
            assert(st.to_schedule@[j] < n);
        }
    }
    lemma_distinct_bounded(pp, n);
    let both = sp + ft;
    assert forall|a: int, b: int| 0 <= a < both.len() && 0 <= b < both.len() && a != b implies both[a] != both[b] by {
        if a < sp.len() && b >= sp.len() {
            assert(ft.contains(both[b]));
        }
        if b < sp.len() && a >= sp.len() {
            assert(ft.contains(both[a]));
        }
    }
    assert forall|i: int| 0 <= i < both.len() implies (#[trigger] both[i]) < n by {
        if i < sp.len() { assert(both[i] == sp[i]); } else { assert(both[i] == ft[i - sp.len()]); }
    }
    lemma_distinct_bounded(both, n);
    lemma_t_entries(prods, sp);
    lemma_distinct_subset_len(t_entries(prods, sp), sp);
}

/// How many entries of `ps` name a product in `s`.
pub open spec fn count_sub(ps: Seq<i32>, s: Set<usize>) -> nat
    decreases ps.len(),
{
    if ps.len() == 0 {
        0
    } else {
        count_sub(ps.drop_last(), s) + (if s.contains(ps.last() as usize) { 1nat } else { 0nat })
    }
}

proof fn lemma_count_sub_insert(ps: Seq<i32>, s: Set<usize>, y: usize)
    requires
        !s.contains(y),
        forall|i: int| 0 <= i < ps.len() ==> #[trigger] ps[i] >= 0,
    ensures
        count_sub(ps, s.insert(y)) == count_sub(ps, s) + count_in(ps, y as int),
    decreases ps.len(),
{
    if ps.len() > 0 {
        let d = ps.drop_last();
        lemma_count_sub_insert(d, s, y);
        assert(d.push(ps.last()) =~= ps);
        lemma_count_in_push(d, ps.last(), y as int);
        assert(ps.last() >= 0);
    } else {
        assert(count_in(ps, y as int) == 0);
    }
}

proof fn lemma_undone_split(ps: Seq<i32>, done: Set<usize>, u: Set<usize>)
    requires
        done.disjoint(u),
    ensures
        undone_count(ps, done) == undone_count(ps, done.union(u)) + count_sub(ps, u),
    decreases ps.len(),
{
    if ps.len() > 0 {
        lemma_undone_split(ps.drop_last(), done, u);
    }
}

/// The products among the first `m` entries of `pp` that complete.
pub open spec fn releasing_set(prods: Seq<PauliProduct>, cp: Seq<(usize, usize)>, failed: Seq<usize>, pp: Seq<usize>, m: int) -> Set<usize> {
    Set::new(|x: usize| exists|k: int| 0 <= k < m && pp[k] == x && releases(prods, cp, failed, x))
}

proof fn lemma_release_total_count(prods: Seq<PauliProduct>, cp: Seq<(usize, usize)>, failed: Seq<usize>, pp: Seq<usize>,
    m: int, c: int)
    requires
        deps_wf(prods),
        pp.no_duplicates(),
        0 <= m <= pp.len(),
        forall|i: int| 0 <= i < pp.len() ==> (#[trigger] pp[i]) < prods.len(),
        0 <= c < prods.len(),
    ensures
        release_total(prods, cp, failed, pp, m, c) == count_sub(prods[c].parents@, releasing_set(prods, cp, failed, pp, m)),
    decreases m,
{
    let ps = prods[c].parents@;
    assert forall|i: int| 0 <= i < ps.len() implies #[trigger] ps[i] >= 0 by {
        assert(0 <= ps[i] < c);
    }
    if m == 0 {
        assert(releasing_set(prods, cp, failed, pp, 0) =~= Set::<usize>::empty());
        lemma_count_sub_empty(ps);
    } else {
        lemma_release_total_count(prods, cp, failed, pp, m - 1, c);
        let prev = releasing_set(prods, cp, failed, pp, m - 1);
        let y = pp[m - 1];
        if releases(prods, cp, failed, y) {
            assert(releasing_set(prods, cp, failed, pp, m) =~= prev.insert(y));
            assert(!prev.contains(y)) by {
                if prev.contains(y) {
                    let k = choose|k: int| 0 <= k < m - 1 && pp[k] == y && releases(prods, cp, failed, y);
                    assert(pp[k] == pp[m - 1]);
                }
            }
            lemma_count_sub_insert(ps, prev, y);
            assert(count_in(prods[y as int].children@, c) == count_in(ps, y as int));
        } else {
            assert(releasing_set(prods, cp, failed, pp, m) =~= prev);
        }
    }
}

proof fn lemma_count_sub_empty(ps: Seq<i32>)
    ensures
        count_sub(ps, Set::<usize>::empty()) == 0,
    decreases ps.len(),
{
    if ps.len() > 0 {
        lemma_count_sub_empty(ps.drop_last());
    }
}

/// Each entry of a routing is a running Clifford, a retrying T product or a
/// ready product, and every running or retrying product is in it.
proof fn lemma_routing_members(st: LcycleState, pp: Seq<usize>)
    requires
        st.is_lcycle_routing(pp),
    ensures
        forall|i: int| 0 <= i < pp.len() ==> clifford_ids(st.clifford_paths@).contains(#[trigger] pp[i])
            || st.failed_t_paths@.contains(pp[i]) || st.to_schedule@.contains(pp[i]),
        forall|x: usize| #[trigger] clifford_ids(st.clifford_paths@).contains(x) ==> pp.contains(x),
        forall|x: usize| #[trigger] st.failed_t_paths@.contains(x) ==> pp.contains(x),
{
    let c = st.carried();
    let ids = clifford_ids(st.clifford_paths@);
    let ft = st.failed_t_paths@;
    assert forall|i: int| 0 <= i < pp.len() implies ids.contains(#[trigger] pp[i]) || ft.contains(pp[i])
        || st.to_schedule@.contains(pp[i]) by {
        if i < c.len() {
            assert(pp[i] == pp.subrange(0, c.len() as int)[i]);
            if i < ids.len() {
                assert(c[i] == ids[i]);
            } else {
                assert(c[i] == ft[i - ids.len()]);
            }
        }
    }
    assert forall|x: usize| #[trigger] ids.contains(x) implies pp.contains(x) by {
        let i = choose|i: int| 0 <= i < ids.len() && ids[i] == x;
        assert(c[i] == x);
        assert(pp.subrange(0, c.len() as int)[i] == x);
        assert(pp[i] == x);
    }
    assert forall|x: usize| #[trigger] ft.contains(x) implies pp.contains(x) by {
        let i = choose|i: int| 0 <= i < ft.len() && ft[i] == x;
        assert(c[ids.len() + i] == x);
        assert(pp.subrange(0, c.len() as int)[ids.len() + i] == x);
        assert(pp[ids.len() + i] == x);
    }
}

/// No product of a routing has completed.
proof fn lemma_routing_undone(prods: Seq<PauliProduct>, st: LcycleState, pp: Seq<usize>)
    requires
        st.wf(prods),
        st.is_lcycle_routing(pp),
    ensures
        forall|i: int| 0 <= i < pp.len() ==> !st.is_done(#[trigger] pp[i]),
{
    lemma_routing_members(st, pp);
    assert forall|i: int| 0 <= i < pp.len() implies !st.is_done(#[trigger] pp[i]) by {
        if st.failed_t_paths@.contains(pp[i]) {
            assert(!st.scheduled_products@.contains(pp[i]));
        }
        if st.to_schedule@.contains(pp[i]) {
            assert(!st.scheduled_products@.contains(pp[i]));
        }
    }
}

/// The completing products of a routing hold no more child entries naming
/// `c` than `c` has parent entries left: the parent counters never underflow.
proof fn lemma_release_bound(prods: Seq<PauliProduct>, st: LcycleState, pp: Seq<usize>, failed: Seq<usize>)
    requires
        deps_wf(prods),
        st.wf(prods),
        st.is_lcycle_routing(pp),
    ensures
        forall|c: int| 0 <= c < prods.len() ==> release_total(prods, st.clifford_paths@, failed, pp, pp.len() as int, c)
            <= #[trigger] st.remaining_parents@[c],
{
    lemma_wf_bounds(prods, st, pp);
    lemma_routing_undone(prods, st, pp);
    let u = releasing_set(prods, st.clifford_paths@, failed, pp, pp.len() as int);
    let d = st.done_set();
    assert(d.disjoint(u)) by {
        assert forall|x: usize| d.contains(x) implies !u.contains(x) by {
            if u.contains(x) {
                let k = choose|k: int| 0 <= k < pp.len() && pp[k] == x && releases(prods, st.clifford_paths@, failed, x);
                assert(!st.is_done(pp[k]));
            }
        }
    }
    assert forall|c: int| 0 <= c < prods.len() implies release_total(prods, st.clifford_paths@, failed, pp, pp.len() as int, c)
        <= #[trigger] st.remaining_parents@[c] by {
        lemma_release_total_count(prods, st.clifford_paths@, failed, pp, pp.len() as int, c);
        lemma_undone_split(prods[c].parents@, d, u);
    }
}

proof fn lemma_without(s: Seq<usize>, d: Seq<usize>)
    ensures
        forall|x: usize| #[trigger] without(s, d).contains(x) <==> s.contains(x) && !d.contains(x),
        s.no_duplicates() ==> without(s, d).no_duplicates(),
    decreases s.len(),
{
    if s.len() > 0 {
        let t = s.drop_last();
        lemma_without(t, d);
        let w = without(s, d);
        let wt = without(t, d);
        assert forall|x: usize| #[trigger] w.contains(x) <==> s.contains(x) && !d.contains(x) by {
            if s.contains(x) && !d.contains(x) {
                let i = choose|i: int| 0 <= i < s.len() && s[i] == x;
                if i < s.len() - 1 {
                    assert(t[i] == x);
                    assert(wt.contains(x));
                    let j = choose|j: int| 0 <= j < wt.len() && wt[j] == x;
                    if !d.contains(s.last()) { assert(w[j] == x); }
                } else {
                    assert(w[w.len() - 1] == x);
                }
            }
            if w.contains(x) {
                let j = choose|j: int| 0 <= j < w.len() && w[j] == x;
                if !d.contains(s.last()) && j == w.len() - 1 {
                    assert(s[s.len() - 1] == x);
                } else {
                    assert(wt[j] == x);
                    assert(wt.contains(x));
                    let i = choose|i: int| 0 <= i < t.len() && t[i] == x;
                    assert(s[i] == x);
                }
            }
        }
        if s.no_duplicates() {
            assert(t.no_duplicates()) by {
                assert forall|a: int, b: int| 0 <= a < t.len() && 0 <= b < t.len() && a != b implies t[a] != t[b] by {
                    assert(t[a] == s[a] && t[b] == s[b]);
                }
            }
            if !d.contains(s.last()) {
                assert(!t.contains(s.last())) by {
                    if t.contains(s.last()) {
                        let i = choose|i: int| 0 <= i < t.len() && t[i] == s.last();
                        assert(s[i] == s[s.len() - 1]);
                    }
                }
                assert forall|a: int, b: int| 0 <= a < w.len() && 0 <= b < w.len() && a != b implies w[a] != w[b] by {
                    if a == w.len() - 1 { assert(wt.contains(w[b])); }
                    if b == w.len() - 1 { assert(wt.contains(w[a])); }
                }
            }
        }
    }
}

proof fn lemma_append_new(s: Seq<usize>, xs: Seq<usize>, k: int)
    requires
        0 <= k <= xs.len(),
    ensures
        forall|x: usize| #[trigger] append_new(s, xs, k).contains(x) <==> s.contains(x) || xs.take(k).contains(x),
        s.no_duplicates() ==> append_new(s, xs, k).no_duplicates(),
    decreases k,
{
    if k > 0 {
        lemma_append_new(s, xs, k - 1);
        let prev = append_new(s, xs, k - 1);
        let r = append_new(s, xs, k);
        assert forall|x: usize| #[trigger] r.contains(x) <==> s.contains(x) || xs.take(k).contains(x) by {
            if xs.take(k).contains(x) {
                let i = choose|i: int| 0 <= i < k && #[trigger] xs.take(k)[i] == x;
                if i < k - 1 { assert(xs.take(k - 1)[i] == x); }
            }
            if xs.take(k - 1).contains(x) {
                let i = choose|i: int| 0 <= i < k - 1 && #[trigger] xs.take(k - 1)[i] == x;
                assert(xs.take(k)[i] == x);
            }
            if !prev.contains(xs[k - 1]) {
                if r.contains(x) {
                    let j = choose|j: int| 0 <= j < r.len() && r[j] == x;
                    if j < prev.len() { assert(prev[j] == x); } else { assert(xs.take(k)[k - 1] == x); }
                }
                if prev.contains(x) {
                    let j = choose|j: int| 0 <= j < prev.len() && prev[j] == x;
                    assert(r[j] == x);
                }
                assert(r[r.len() - 1] == xs[k - 1]);
                assert(xs.take(k)[k - 1] == xs[k - 1]);
            } else {
                assert(xs.take(k)[k - 1] == xs[k - 1]);
            }
        }
        if s.no_duplicates() && !prev.contains(xs[k - 1]) {
            assert forall|a: int, b: int| 0 <= a < r.len() && 0 <= b < r.len() && a != b implies r[a] != r[b] by {
                if a == r.len() - 1 { assert(prev.contains(r[b])); }
                if b == r.len() - 1 { assert(prev.contains(r[a])); }
            }
        }
    } else {
        assert forall|x: usize| !(#[trigger] xs.take(k).contains(x)) by {}
    }
}

proof fn lemma_failed_upto(prods: Seq<PauliProduct>, ft: Seq<usize>, pp: Seq<usize>, ok: Seq<bool>, k: int)
    requires
        0 <= k <= pp.len(),
        pp.no_duplicates(),
    ensures
        forall|x: usize| #[trigger] failed_upto(prods, ft, pp, ok, k).contains(x) <==>
            exists|j: int| 0 <= j < k && pp[j] == x && fails_at(prods, ft, pp, ok, j),
        failed_upto(prods, ft, pp, ok, k).no_duplicates(),
    decreases k,
{
    if k > 0 {
        lemma_failed_upto(prods, ft, pp, ok, k - 1);
        let prev = failed_upto(prods, ft, pp, ok, k - 1);
        let r = failed_upto(prods, ft, pp, ok, k);
        assert forall|x: usize| #[trigger] r.contains(x) <==>
            exists|j: int| 0 <= j < k && pp[j] == x && fails_at(prods, ft, pp, ok, j) by {
            if exists|j: int| 0 <= j < k && pp[j] == x && fails_at(prods, ft, pp, ok, j) {
                let j = choose|j: int| 0 <= j < k && pp[j] == x && fails_at(prods, ft, pp, ok, j);
                if j < k - 1 {
                    assert(prev.contains(x));
                    let i = choose|i: int| 0 <= i < prev.len() && prev[i] == x;
                    assert(r[i] == x);
                } else {
                    assert(r[r.len() - 1] == x);
                }
            }
            if r.contains(x) {
                let i = choose|i: int| 0 <= i < r.len() && r[i] == x;
                if i < prev.len() {
                    assert(prev[i] == x);
                    assert(prev.contains(x));
                } else {
                    assert(pp[k - 1] == x);
                }
            }
        }
        if fails_at(prods, ft, pp, ok, k - 1) {
            assert(!prev.contains(pp[k - 1])) by {
                if prev.contains(pp[k - 1]) {
                    let j = choose|j: int| 0 <= j < k - 1 && pp[j] == pp[k - 1] && fails_at(prods, ft, pp, ok, j);
                }
            }
            assert forall|a: int, b: int| 0 <= a < r.len() && 0 <= b < r.len() && a != b implies r[a] != r[b] by {
                if a == r.len() - 1 { assert(prev.contains(r[b])); }
                if b == r.len() - 1 { assert(prev.contains(r[a])); }
            }
        }
    }
}

proof fn lemma_t_retry(prods: Seq<PauliProduct>, ft: Seq<usize>, pp: Seq<usize>, failed: Seq<usize>, k: int)
    requires
        0 <= k <= pp.len(),
        pp.no_duplicates(),
        ft.no_duplicates(),
        forall|x: usize| #[trigger] ft.contains(x) ==> 0 <= x < prods.len() && prods[x as int].gate_type == GateType::T && !failed.contains(x),
        forall|x: usize| #[trigger] failed.contains(x) ==> 0 <= x < prods.len() && prods[x as int].gate_type == GateType::T,
    ensures
        t_retry_upto(prods, ft, pp, failed, k).no_duplicates(),
        forall|x: usize| #[trigger] t_retry_upto(prods, ft, pp, failed, k).contains(x) <==>
            (ft.contains(x) && !pp.take(k).contains(x)) || (failed.contains(x) && pp.take(k).contains(x)),
    decreases k,
{
    if k > 0 {
        lemma_t_retry(prods, ft, pp, failed, k - 1);
        let s = t_retry_upto(prods, ft, pp, failed, k - 1);
        let r = t_retry_upto(prods, ft, pp, failed, k);
        let id = pp[k - 1];
        assert(!pp.take(k - 1).contains(id)) by {
            if pp.take(k - 1).contains(id) {
                let i = choose|i: int| 0 <= i < k - 1 && #[trigger] pp.take(k - 1)[i] == id;
                assert(pp[i] == pp[k - 1]);
            }
        }
        assert forall|x: usize| #[trigger] pp.take(k).contains(x) <==> pp.take(k - 1).contains(x) || x == id by {
            if pp.take(k).contains(x) {
                let i = choose|i: int| 0 <= i < k && #[trigger] pp.take(k)[i] == x;
                if i < k - 1 { assert(pp.take(k - 1)[i] == x); }
            }
            if pp.take(k - 1).contains(x) {
                let i = choose|i: int| 0 <= i < k - 1 && #[trigger] pp.take(k - 1)[i] == x;
                assert(pp.take(k)[i] == x);
            }
            if x == id { assert(pp.take(k)[k - 1] == x); }
        }
        if prods[id as int].gate_type == GateType::T {
            if failed.contains(id) {
                if !s.contains(id) {
                    assert forall|x: usize| #[trigger] r.contains(x) <==> s.contains(x) || x == id by {
                        if r.contains(x) {
                            let j = choose|j: int| 0 <= j < r.len() && r[j] == x;
                            if j < s.len() { assert(s[j] == x); }
                        }
                        if s.contains(x) {
                            let j = choose|j: int| 0 <= j < s.len() && s[j] == x;
                            assert(r[j] == x);
                        }
                        if x == id { assert(r[r.len() - 1] == x); }
                    }
                    assert forall|a: int, b: int| 0 <= a < r.len() && 0 <= b < r.len() && a != b implies r[a] != r[b] by {
                        if a == r.len() - 1 { assert(s.contains(r[b])); }
                        if b == r.len() - 1 { assert(s.contains(r[a])); }
                    }
                }
            } else if s.contains(id) {
                let i = s.index_of(id);
                lemma_swap_removed(s, i);
            }
        }
    } else {
        assert forall|x: usize| !(#[trigger] pp.take(k).contains(x)) by {}
    }
}

proof fn lemma_clifford_count_at(s: Seq<(usize, usize)>, j: int)
    requires
        clifford_ids(s).no_duplicates(),
        0 <= j < s.len(),
    ensures
        clifford_ids(s).contains(s[j].0),
        clifford_count(s, s[j].0) == s[j].1,
{
    let ids = clifford_ids(s);
    assert(ids[j] == s[j].0);
    let i = ids.index_of(s[j].0);
    assert(ids[i] == s[j].0);
    assert(i == j);
}

/// The lcycles a product of gate `g` runs for: two for CX, three for S and SX, one otherwise.
pub open spec fn lcycles_needed(g: GateType) -> nat {
    if g == GateType::CX { 2 } else if is_clifford_gate(g) { 3 } else { 1 }
}

/// The count a Clifford of gate `g` starts with: the lcycles it still needs after its first.
pub open spec fn start_count(g: GateType) -> usize {
    if g == GateType::CX { 1 } else { 2 }
}

proof fn lemma_cliffords_upto(prods: Seq<PauliProduct>, cp: Seq<(usize, usize)>, pp: Seq<usize>, k: int)
    requires
        0 <= k <= pp.len(),
        pp.no_duplicates(),
        cliffords_ok(cp),
        forall|x: usize| #[trigger] clifford_ids(cp).contains(x) ==> 0 <= x < prods.len() && is_clifford_gate(prods[x as int].gate_type),
    ensures
        cliffords_ok(cliffords_upto(prods, cp, pp, k)),
        forall|x: usize| #[trigger] clifford_ids(cliffords_upto(prods, cp, pp, k)).contains(x) <==>
            (clifford_ids(cp).contains(x) && !pp.take(k).contains(x))
            || (pp.take(k).contains(x) && is_clifford_gate(prods[x as int].gate_type)
                && (!clifford_ids(cp).contains(x) || clifford_count(cp, x) == 2)),
        forall|x: usize| #[trigger] clifford_ids(cliffords_upto(prods, cp, pp, k)).contains(x) ==>
            clifford_count(cliffords_upto(prods, cp, pp, k), x) == (if pp.take(k).contains(x) {
                if clifford_ids(cp).contains(x) { (clifford_count(cp, x) - 1) as usize } else { start_count(prods[x as int].gate_type) }
            } else {
                clifford_count(cp, x)
            }),
    decreases k,
{
    if k > 0 {
        lemma_cliffords_upto(prods, cp, pp, k - 1);
        let s = cliffords_upto(prods, cp, pp, k - 1);
        let r = cliffords_upto(prods, cp, pp, k);
        let id = pp[k - 1];
        let ids = clifford_ids(s);
        let rids = clifford_ids(r);
        assert(!pp.take(k - 1).contains(id)) by {
            if pp.take(k - 1).contains(id) {
                let i = choose|i: int| 0 <= i < k - 1 && #[trigger] pp.take(k - 1)[i] == id;
                assert(pp[i] == pp[k - 1]);
            }
        }
        assert forall|x: usize| #[trigger] pp.take(k).contains(x) <==> pp.take(k - 1).contains(x) || x == id by {
            if pp.take(k).contains(x) {
                let i = choose|i: int| 0 <= i < k && #[trigger] pp.take(k)[i] == x;
                if i < k - 1 { assert(pp.take(k - 1)[i] == x); }
            }
            if pp.take(k - 1).contains(x) {
                let i = choose|i: int| 0 <= i < k - 1 && #[trigger] pp.take(k - 1)[i] == x;
                assert(pp.take(k)[i] == x);
            }
            if x == id { assert(pp.take(k)[k - 1] == x); }
        }
        let g = prods[id as int].gate_type;
        if is_clifford_gate(g) {
            if ids.contains(id) {
                let i = ids.index_of(id);
                assert(ids[i] == id);
                assert(s[i].0 == id);
                lemma_clifford_count_at(s, i);
                if s[i].1 == 1 {
                    lemma_cliffords_swap_removed(s, i);
                    lemma_swap_removed(ids, i);
                    assert forall|x: usize| #[trigger] rids.contains(x) implies clifford_count(r, x) == clifford_count(s, x) by {
                        let jr = rids.index_of(x);
                        assert(rids[jr] == x);
                        lemma_clifford_count_at(r, jr);
                        if jr == i { assert(r[jr] == s[s.len() - 1]); lemma_clifford_count_at(s, s.len() - 1); } else { assert(r[jr] == s[jr]); lemma_clifford_count_at(s, jr); }
                    }
                } else {
                    assert(rids =~= ids);
                    assert forall|j: int| 0 <= j < r.len() implies 1 <= (#[trigger] r[j]).1 <= 2 by {
                        if j != i { assert(r[j] == s[j]); }
                    }
                    lemma_clifford_count_at(r, i);
                    assert forall|x: usize| #[trigger] rids.contains(x) && x != id implies clifford_count(r, x) == clifford_count(s, x) by {
                        let j = ids.index_of(x);
                        assert(ids.contains(x));
                        assert(ids[j] == x);
                        lemma_clifford_count_at(s, j);
                        assert(j != i);
                        assert(r[j] == s[j]);
                        lemma_clifford_count_at(r, j);
                    }
                }
            } else {
                assert(rids =~= ids.push(id));
                assert forall|a: int, b: int| 0 <= a < rids.len() && 0 <= b < rids.len() && a != b implies rids[a] != rids[b] by {
                    if a == s.len() { assert(ids.contains(rids[b])); }
                    if b == s.len() { assert(ids.contains(rids[a])); }
                }
                assert forall|j: int| 0 <= j < r.len() implies 1 <= (#[trigger] r[j]).1 <= 2 by {
                    if j < s.len() { assert(r[j] == s[j]); }
                }
                assert forall|x: usize| #[trigger] rids.contains(x) <==> ids.contains(x) || x == id by {
                    if rids.contains(x) {
                        let j = choose|j: int| 0 <= j < rids.len() && rids[j] == x;
                        if j < ids.len() { assert(ids[j] == x); }
                    }
                    if ids.contains(x) {
                        let j = choose|j: int| 0 <= j < ids.len() && ids[j] == x;
                        assert(rids[j] == x);
                    }
                    if x == id { assert(rids[s.len() as int] == id); }
                }
                lemma_clifford_count_at(r, s.len() as int);
                assert forall|x: usize| #[trigger] rids.contains(x) && x != id implies clifford_count(r, x) == clifford_count(s, x) by {
                    let j = ids.index_of(x);
                    assert(ids.contains(x));
                    assert(ids[j] == x);
                    lemma_clifford_count_at(s, j);
                    assert(r[j] == s[j]);
                    lemma_clifford_count_at(r, j);
                }
            }
        }
    } else {
        assert forall|x: usize| !(#[trigger] pp.take(k).contains(x)) by {}
    }
}

/// Every entry of the distinct list `a` occurs in the distinct list `b`, so
/// `b` is at least as long.
proof fn lemma_distinct_subset_len(a: Seq<usize>, b: Seq<usize>)
    requires
        a.no_duplicates(),
        b.no_duplicates(),
        forall|x: usize| #[trigger] a.contains(x) ==> b.contains(x),
    ensures
        a.len() <= b.len(),
{
    a.unique_seq_to_set();
    b.unique_seq_to_set();
    vstd::seq_lib::seq_to_set_is_finite(b);
    assert(a.to_set().subset_of(b.to_set()));
    vstd::set_lib::lemma_len_subset(a.to_set(), b.to_set());
}

proof fn lemma_count_id_distinct(s: Seq<usize>)
    requires
        s.no_duplicates(),
    ensures
        forall|x: usize| #[trigger] count_id(s, x) == (if s.contains(x) { 1nat } else { 0nat }),
    decreases s.len(),
{
    if s.len() > 0 {
        let t = s.drop_last();
        assert(t.no_duplicates()) by {
            assert forall|a: int, b: int| 0 <= a < t.len() && 0 <= b < t.len() && a != b implies t[a] != t[b] by {
                assert(t[a] == s[a] && t[b] == s[b]);
            }
        }
        lemma_count_id_distinct(t);
        assert forall|x: usize| #[trigger] count_id(s, x) == (if s.contains(x) { 1nat } else { 0nat }) by {
            assert(count_id(s, x) == count_id(t, x) + (if s.last() == x { 1nat } else { 0nat }));
            assert(count_id(t, x) == (if t.contains(x) { 1nat } else { 0nat }));
            if t.contains(x) {
                let i = choose|i: int| 0 <= i < t.len() && t[i] == x;
                assert(s[i] == x);
                assert(s.last() != x);
            }
            if s.contains(x) && !t.contains(x) {
                let i = choose|i: int| 0 <= i < s.len() && s[i] == x;
                if i < t.len() { assert(t[i] == x); }
            }
            if s.last() == x {
                assert(s[s.len() - 1] == x);
            }
        }
    }
}

proof fn lemma_concat_contains(a: Seq<usize>, b: Seq<usize>)
    ensures
        forall|x: usize| #[trigger] (a + b).contains(x) <==> a.contains(x) || b.contains(x),
{
    assert forall|x: usize| #[trigger] (a + b).contains(x) <==> a.contains(x) || b.contains(x) by {
        if (a + b).contains(x) {
            let i = choose|i: int| 0 <= i < (a + b).len() && (a + b)[i] == x;
            if i < a.len() { assert(a[i] == x); } else { assert(b[i - a.len()] == x); }
        }
        if a.contains(x) {
            let i = choose|i: int| 0 <= i < a.len() && a[i] == x;
            assert((a + b)[i] == x);
        }
        if b.contains(x) {
            let i = choose|i: int| 0 <= i < b.len() && b[i] == x;
            assert((a + b)[a.len() + i] == x);
        }
    }
}

/// Closing an lcycle keeps the state consistent with the circuit, whatever
/// routing ran and whatever the T injections gave.
proof fn lemma_complete_keeps_wf(prods: Seq<PauliProduct>, st: LcycleState, pp: Seq<usize>, ok: Seq<bool>,
    failed: Seq<usize>, ready: Seq<usize>, nw: LcycleState)
    requires
        deps_wf(prods),
        st.wf(prods),
        st.is_lcycle_routing(pp),
        ok.len() == pp.len(),
        failed == failed_upto(prods, st.failed_t_paths@, pp, ok, pp.len() as int),
        nw.to_schedule@ == without(st.to_schedule@, pp) + ready,
        nw.failed_t_paths@ == t_retry_upto(prods, st.failed_t_paths@, pp, failed, pp.len() as int),
        nw.clifford_paths@ == cliffords_upto(prods, st.clifford_paths@, pp, pp.len() as int),
        nw.t_gate_failures == st.t_gate_failures + failed.len(),
        nw.scheduled_products@ == append_new(st.scheduled_products@, without(pp, failed), without(pp, failed).len() as int),
        nw.remaining_parents@.len() == prods.len(),
        forall|c: int| 0 <= c < prods.len() ==> #[trigger] nw.remaining_parents@[c]
            == st.remaining_parents@[c] - release_total(prods, st.clifford_paths@, failed, pp, pp.len() as int, c),
        ready.no_duplicates(),
        forall|i: int| 0 <= i < ready.len() ==> (#[trigger] ready[i]) < prods.len(),
        forall|c: usize| c < prods.len() ==> (#[trigger] ready.contains(c) <==>
            st.remaining_parents@[c as int] > 0 && nw.remaining_parents@[c as int] == 0),
        nw.lcycle_scheduled@.len() == st.lcycle_scheduled@.len() + 1,
        nw.lcycle_scheduled@.drop_last() == st.lcycle_scheduled@,
        nw.lcycle_scheduled@.last().1@ == without(pp, failed),
    ensures
        nw.wf(prods),
        forall|x: usize| #[trigger] st.failed_t_paths@.contains(x) ==> !nw.failed_t_paths@.contains(x) && nw.is_done(x),
{
    let n = prods.len();
    let len = pp.len() as int;
    let ts = st.to_schedule@;
    let cp = st.clifford_paths@;
    let ft = st.failed_t_paths@;
    let sp = st.scheduled_products@;
    let ids = clifford_ids(cp);
    lemma_wf_bounds(prods, st, pp);
    lemma_routing_members(st, pp);
    lemma_routing_undone(prods, st, pp);
    lemma_release_bound(prods, st, pp, failed);
    assert(pp.take(len) =~= pp);
    lemma_failed_upto(prods, ft, pp, ok, len);
    // what failed: routed first attempts at T products
    assert forall|x: usize| #[trigger] failed.contains(x) implies pp.contains(x) && x < n
        && prods[x as int].gate_type == GateType::T && !ft.contains(x) && ts.contains(x) by {
        let j = choose|j: int| 0 <= j < len && pp[j] == x && fails_at(prods, ft, pp, ok, j);
        assert(pp[j] < n);
        if ids.contains(x) {
            assert(is_clifford_gate(prods[x as int].gate_type));
        }
    }
    lemma_t_retry(prods, ft, pp, failed, len);
    lemma_cliffords_upto(prods, cp, pp, len);
    let lids = without(pp, failed);
    lemma_without(pp, failed);
    lemma_append_new(sp, lids, lids.len() as int);
    assert(lids.take(lids.len() as int) =~= lids);
    let kept = without(ts, pp);
    lemma_without(ts, pp);
    lemma_concat_contains(kept, ready);
    let ts2 = nw.to_schedule@;
    let cp2 = nw.clifford_paths@;
    let ft2 = nw.failed_t_paths@;
    let sp2 = nw.scheduled_products@;
    let ids2 = clifford_ids(cp2);
    // membership in the new lists
    assert forall|x: usize| #[trigger] ft2.contains(x) <==> failed.contains(x) by {}
    assert forall|x: usize| #[trigger] sp2.contains(x) <==> sp.contains(x) || (pp.contains(x) && !failed.contains(x)) by {}
    assert forall|x: usize| #[trigger] ids2.contains(x) <==> pp.contains(x) && is_clifford_gate(prods[x as int].gate_type)
        && (!ids.contains(x) || clifford_count(cp, x) == 2) by {}
    assert forall|x: usize| #[trigger] ts2.contains(x) <==> (ts.contains(x) && !pp.contains(x)) || ready.contains(x) by {}
    // a product of the routing has no parent entries left, and was ready or started
    assert forall|x: usize| #[trigger] pp.contains(x) implies x < n && st.remaining_parents@[x as int] == 0
        && !st.is_done(x) by {
        let i = choose|i: int| 0 <= i < pp.len() && pp[i] == x;
        assert(pp[i] < n);
        assert(!st.is_done(pp[i]));
        if ids.contains(x) { assert(sp.contains(x)); assert(st.is_started(x)); }
        if ft.contains(x) { assert(st.is_started(x)); }
    }
    // newly ready products were neither ready nor started nor routed
    assert forall|x: usize| #[trigger] ready.contains(x) implies x < n && !ts.contains(x) && !st.is_started(x) && !pp.contains(x) by {
        let i = choose|i: int| 0 <= i < ready.len() && ready[i] == x;
        assert(ready[i] < n);
        assert(st.remaining_parents@[x as int] > 0);
    }
    // the completed products: the old ones and those of the routing that release their children
    let u = releasing_set(prods, cp, failed, pp, len);
    let d = st.done_set();
    assert forall|x: usize| #[trigger] u.contains(x) <==> pp.contains(x) && releases(prods, cp, failed, x) by {
        if pp.contains(x) && releases(prods, cp, failed, x) {
            let k = choose|k: int| 0 <= k < pp.len() && pp[k] == x;
            assert(u.contains(x));
        }
    }
    assert(d.disjoint(u));
    assert(nw.done_set() =~= d.union(u)) by {
        assert forall|x: usize| nw.done_set().contains(x) <==> d.union(u).contains(x) by {
            if pp.contains(x) {
                assert(!d.contains(x));
                let g = prods[x as int].gate_type;
                if g == GateType::T {
                    if !failed.contains(x) {
                        assert(!is_clifford_gate(g));
                    }
                    assert(!ids2.contains(x));
                } else if !is_clifford_gate(g) {
                    assert(!failed.contains(x));
                    assert(!ids2.contains(x));
                } else {
                    assert(!failed.contains(x));
                }
            } else {
                assert(!ids.contains(x));
                assert(!ids2.contains(x));
                assert(!u.contains(x));
            }
        }
    }
    assert forall|c: int| 0 <= c < n implies (#[trigger] nw.remaining_parents@[c]) == undone_count(prods[c].parents@, nw.done_set()) by {
        lemma_release_total_count(prods, cp, failed, pp, len, c);
        lemma_undone_split(prods[c].parents@, d, u);
    }
    assert forall|c: usize| c < n && (nw.is_started(c) || ts2.contains(c)) implies #[trigger] nw.remaining_parents@[c as int] == 0 by {
        if sp.contains(c) || ft.contains(c) {
            assert(st.is_started(c));
        }
        if ts.contains(c) {
            assert(st.remaining_parents@[c as int] == 0);
        }
    }
    assert forall|c: usize| c < n && #[trigger] nw.remaining_parents@[c as int] == 0 && !nw.is_started(c) implies ts2.contains(c) by {
        assert(!pp.contains(c));
        assert(!ft.contains(c));
        assert(!st.is_started(c));
        if st.remaining_parents@[c as int] == 0 {
            assert(ts.contains(c));
        } else {
            assert(ready.contains(c));
        }
    }
    assert forall|x: usize| #[trigger] ts2.contains(x) implies !sp2.contains(x) && !ft2.contains(x) by {
        if ts.contains(x) && !pp.contains(x) {
            assert(!sp.contains(x));
        }
    }
    assert forall|x: usize| #[trigger] ids2.contains(x) implies sp2.contains(x) && is_clifford_gate(prods[x as int].gate_type) by {
        if failed.contains(x) {
            assert(prods[x as int].gate_type == GateType::T);
        }
    }
    assert forall|x: usize| #[trigger] ft2.contains(x) implies !sp2.contains(x) && prods[x as int].gate_type == GateType::T by {
        assert(ts.contains(x));
        assert(!sp.contains(x));
    }
    // distinct lists
    assert(ts2.no_duplicates()) by {
        assert forall|a: int, b: int| 0 <= a < ts2.len() && 0 <= b < ts2.len() && a != b implies ts2[a] != ts2[b] by {
            let kl = kept.len() as int;
            if a < kl && b < kl {
                assert(ts2[a] == kept[a] && ts2[b] == kept[b]);
            } else if a >= kl && b >= kl {
                assert(ts2[a] == ready[a - kl] && ts2[b] == ready[b - kl]);
            } else if a < kl {
                assert(ts2[a] == kept[a]);
                assert(ts2[b] == ready[b - kl]);
                assert(kept.contains(kept[a]));
                assert(ready.contains(ready[b - kl]));
            } else {
                assert(ts2[b] == kept[b]);
                assert(ts2[a] == ready[a - kl]);
                assert(kept.contains(kept[b]));
                assert(ready.contains(ready[a - kl]));
            }
        }
    }
    // ranges
    assert forall|i: int| 0 <= i < ts2.len() implies (#[trigger] ts2[i]) < n by {
        assert(ts2.contains(ts2[i]));
        if ts.contains(ts2[i]) {
            let j = choose|j: int| 0 <= j < ts.len() && ts[j] == ts2[i];
            assert(ts[j] < n);
        }
        if ready.contains(ts2[i]) {}
    }
    assert forall|i: int| 0 <= i < cp2.len() implies (#[trigger] cp2[i]).0 < n && 1 <= cp2[i].1 <= 2 by {
        assert(ids2[i] == cp2[i].0);
        assert(ids2.contains(cp2[i].0));
    }
    assert forall|i: int| 0 <= i < ft2.len() implies (#[trigger] ft2[i]) < n by {
        assert(ft2.contains(ft2[i]));
    }
    assert forall|i: int| 0 <= i < sp2.len() implies (#[trigger] sp2[i]) < n by {
        assert(sp2.contains(sp2[i]));
        if sp.contains(sp2[i]) {
            let j = choose|j: int| 0 <= j < sp.len() && sp[j] == sp2[i];
            assert(sp[j] < n);
        }
    }
    // the failure count stays within the T products started
    let tsp = t_entries(prods, sp);
    let tsp2 = t_entries(prods, sp2);
    lemma_t_entries(prods, sp);
    lemma_t_entries(prods, sp2);
    let both = tsp + ft;
    lemma_concat_contains(tsp, ft);
    assert(both.no_duplicates()) by {
        assert forall|a: int, b: int| 0 <= a < both.len() && 0 <= b < both.len() && a != b implies both[a] != both[b] by {
            if a < tsp.len() && b < tsp.len() {
            } else if a >= tsp.len() && b >= tsp.len() {
                assert(both[a] == ft[a - tsp.len()] && both[b] == ft[b - tsp.len()]);
            } else if a < tsp.len() {
                assert(tsp.contains(both[a]));
                assert(ft.contains(both[b]));
            } else {
                assert(tsp.contains(both[b]));
                assert(ft.contains(both[a]));
            }
        }
    }
    assert forall|x: usize| #[trigger] both.contains(x) implies tsp2.contains(x) by {
        if ft.contains(x) {
            assert(pp.contains(x));
            assert(!failed.contains(x));
        }
    }
    lemma_distinct_subset_len(both, tsp2);
    lemma_distinct_subset_len(failed, ft2);
    // each product is recorded once for every lcycle it has run in
    lemma_count_id_distinct(lids);
    assert forall|x: usize| x < n implies #[trigger] occurrences(nw.lcycle_scheduled@, x) == nw.runs(prods, x) by {
        let ls2 = nw.lcycle_scheduled@;
        assert(occurrences(ls2, x) == occurrences(st.lcycle_scheduled@, x) + count_id(lids, x));
        assert(occurrences(st.lcycle_scheduled@, x) == st.runs(prods, x));
        let g = prods[x as int].gate_type;
        if pp.contains(x) {
            assert(!st.is_done(x));
            if failed.contains(x) {
                assert(!lids.contains(x));
                assert(!ids.contains(x));
                assert(!ids2.contains(x));
                assert(!sp2.contains(x));
            } else if is_clifford_gate(g) {
                assert(lids.contains(x));
                if ids.contains(x) {
                    if clifford_count(cp, x) == 2 {
                        assert(ids2.contains(x));
                    } else {
                        assert(!ids2.contains(x));
                        assert(sp2.contains(x));
                    }
                } else {
                    assert(ids2.contains(x));
                }
            } else {
                assert(lids.contains(x));
                assert(!ids.contains(x));
                assert(!ids2.contains(x));
                assert(sp2.contains(x));
            }
        } else {
            assert(!lids.contains(x));
            assert(!ids.contains(x));
            assert(!ids2.contains(x));
            assert(!u.contains(x));
            assert(nw.done_set().contains(x) == d.contains(x));
        }
    }
    assert forall|x: usize| #[trigger] ft.contains(x) implies !ft2.contains(x) && nw.is_done(x) by {
        assert(pp.contains(x));
        assert(!failed.contains(x));
        assert(prods[x as int].gate_type == GateType::T);
        assert(!ids2.contains(x));
    }
}

impl LcycleState {
    /// The products that carry over into every lcycle: the running Cliffords,
    /// then the retrying T products.
    pub open spec fn carried(&self) -> Seq<usize> {
        clifford_ids(self.clifford_paths@) + self.failed_t_paths@
    }

    /// `pp` is what routing can give an lcycle: the carried products first,
    /// then distinct ready products.
    pub open spec fn is_lcycle_routing(&self, pp: Seq<usize>) -> bool {
        let c = self.carried();
        &&& c.len() <= pp.len()
        &&& pp.subrange(0, c.len() as int) == c
        &&& pp.no_duplicates()
        &&& forall|i: int| c.len() <= i < pp.len() ==> self.to_schedule@.contains(#[trigger] pp[i])
    }

    /// Starts the next lcycle and returns the products carried into it.
    pub fn begin_lcycle(&mut self) -> (carried: Vec<usize>)
        requires
            old(self).current_lcycle < usize::MAX,
        ensures
            carried@ == old(self).carried(),
            final(self).current_lcycle == old(self).current_lcycle + 1,
            final(self).to_schedule == old(self).to_schedule,
            final(self).remaining_parents == old(self).remaining_parents,
            final(self).clifford_paths == old(self).clifford_paths,
            final(self).failed_t_paths == old(self).failed_t_paths,
            final(self).scheduled_products == old(self).scheduled_products,
            final(self).lcycle_scheduled == old(self).lcycle_scheduled,
            final(self).t_gate_failures == old(self).t_gate_failures,
            final(self).t_products_remaining == old(self).t_products_remaining,
    {
        self.current_lcycle = self.current_lcycle + 1;
        let mut carried: Vec<usize> = Vec::new();
        let mut i: usize = 0;
        while i < self.clifford_paths.len()
            invariant
                i <= self.clifford_paths@.len(),
                carried@ == clifford_ids(self.clifford_paths@).take(i as int),
            decreases self.clifford_paths@.len() - i,
        {
            carried.push(self.clifford_paths[i].0);
            assert(carried@ =~= clifford_ids(self.clifford_paths@).take(i as int + 1));
            i += 1;
        }
        let mut j: usize = 0;
        while j < self.failed_t_paths.len()
            invariant
                j <= self.failed_t_paths@.len(),
                carried@ == clifford_ids(self.clifford_paths@) + self.failed_t_paths@.take(j as int),
            decreases self.failed_t_paths@.len() - j,
        {
            carried.push(self.failed_t_paths[j]);
            assert(carried@ =~= clifford_ids(self.clifford_paths@) + self.failed_t_paths@.take(j as int + 1));
            j += 1;
        }
        assert(self.failed_t_paths@.take(self.failed_t_paths@.len() as int) =~= self.failed_t_paths@);
        carried
    }

    /// Closes the current lcycle, in which `pp` ran (as `is_lcycle_routing`
    /// describes) and the T injections of first attempts succeeded where
    /// `ok` says so: products that ran leave the ready list, T outcomes are
    /// settled, completing products release their children, Cliffords move
    /// on, the newly ready children join the ready list, and the products
    /// that ran without failing are recorded for this lcycle.
    pub fn complete_lcycle(&mut self, circuit: &Circuit, pp: &Vec<usize>, ok: &Vec<bool>)
        requires
            deps_wf(circuit.products@),
            old(self).wf(circuit.products@),
            old(self).is_lcycle_routing(pp@),
            ok@.len() == pp@.len(),
        ensures
            ({
                let prods = circuit.products@;
                let n = pp@.len() as int;
                let failed = failed_upto(prods, old(self).failed_t_paths@, pp@, ok@, n);
                let rel = release_upto(prods, old(self).clifford_paths@, failed, pp@, old(self).remaining_parents@, n);
                let fa = first_attempts(prods, old(self).failed_t_paths@, pp@, n);
                &&& final(self).to_schedule@ == without(old(self).to_schedule@, pp@) + rel.1
                &&& final(self).remaining_parents@ == rel.0
                &&& final(self).failed_t_paths@ == t_retry_upto(prods, old(self).failed_t_paths@, pp@, failed, n)
                &&& final(self).clifford_paths@ == cliffords_upto(prods, old(self).clifford_paths@, pp@, n)
                &&& final(self).t_gate_failures == old(self).t_gate_failures + failed.len()
                &&& final(self).t_products_remaining == (if old(self).t_products_remaining >= fa {
                    (old(self).t_products_remaining - fa) as usize } else { 0usize })
                &&& final(self).lcycle_scheduled@.len() == old(self).lcycle_scheduled@.len() + 1
                &&& forall|i: int| 0 <= i < old(self).lcycle_scheduled@.len() ==> #[trigger] final(self).lcycle_scheduled@[i]
                    == old(self).lcycle_scheduled@[i]
                &&& final(self).lcycle_scheduled@.last().0 == old(self).current_lcycle
                &&& final(self).lcycle_scheduled@.last().1@ == without(pp@, failed)
                &&& final(self).scheduled_products@ == append_new(old(self).scheduled_products@, without(pp@, failed),
                    without(pp@, failed).len() as int)
                &&& final(self).current_lcycle == old(self).current_lcycle
            }),
            final(self).wf(circuit.products@),
            forall|x: usize| #[trigger] old(self).failed_t_paths@.contains(x) ==> !final(self).failed_t_paths@.contains(x)
                && final(self).is_done(x),
    {
        let ghost prods = circuit.products@;
        let ghost ft0 = self.failed_t_paths@;
        let ghost st0 = *self;
        proof { lemma_wf_bounds(prods, *self, pp@); }
        self.to_schedule = retain_missing(&self.to_schedule, pp);
        let mut fa: usize = 0;
        let mut k: usize = 0;
        while k < pp.len()
            invariant
                k <= pp@.len(),
                prods == circuit.products@,
                forall|i: int| 0 <= i < pp@.len() ==> (#[trigger] pp@[i]) < prods.len(),
                self.failed_t_paths@ == ft0,
                fa == first_attempts(prods, ft0, pp@, k as int),
                fa <= k,
            decreases pp@.len() - k,
        {
            if circuit.products[pp[k]].gate_type.is_t() && !contains_id(&self.failed_t_paths, pp[k]) {
                fa += 1;
            }
            k += 1;
        }
        self.t_products_remaining = if self.t_products_remaining >= fa { self.t_products_remaining - fa } else { 0 };
        let (failed, _recovered) = self.process_t_gate_outcomes(circuit, pp, ok);
        proof { lemma_release_bound(prods, st0, pp@, failed@); }
        let ready = self.unlock_children(circuit, pp, &failed);
        self.advance_clifford_state(circuit, pp);
        let mut i: usize = 0;
        let ghost ts1 = self.to_schedule@;
        let ghost mid = *self;
        while i < ready.len()
            invariant
                i <= ready@.len(),
                self.to_schedule@ == ts1 + ready@.take(i as int),
                self.remaining_parents == mid.remaining_parents,
                self.clifford_paths == mid.clifford_paths,
                self.failed_t_paths == mid.failed_t_paths,
                self.scheduled_products == mid.scheduled_products,
                self.lcycle_scheduled == mid.lcycle_scheduled,
                self.t_gate_failures == mid.t_gate_failures,
                self.t_products_remaining == mid.t_products_remaining,
                self.current_lcycle == mid.current_lcycle,
            decreases ready@.len() - i,
        {
            self.to_schedule.push(ready[i]);
            assert(self.to_schedule@ =~= ts1 + ready@.take(i as int + 1));
            i += 1;
        }
        assert(ready@.take(ready@.len() as int) =~= ready@);
        let lcycle_ids = retain_missing(pp, &failed);
        let ghost sp0 = self.scheduled_products@;
        let ghost mid2 = *self;
        let mut j: usize = 0;
        while j < lcycle_ids.len()
            invariant
                j <= lcycle_ids@.len(),
                self.scheduled_products@ == append_new(sp0, lcycle_ids@, j as int),
                self.to_schedule == mid2.to_schedule,
                self.remaining_parents == mid2.remaining_parents,
                self.clifford_paths == mid2.clifford_paths,
                self.failed_t_paths == mid2.failed_t_paths,
                self.lcycle_scheduled == mid2.lcycle_scheduled,
                self.t_gate_failures == mid2.t_gate_failures,
                self.t_products_remaining == mid2.t_products_remaining,
                self.current_lcycle == mid2.current_lcycle,
            decreases lcycle_ids@.len() - j,
        {
            if !contains_id(&self.scheduled_products, lcycle_ids[j]) {
                self.scheduled_products.push(lcycle_ids[j]);
            }
            j += 1;
        }
        self.lcycle_scheduled.push((self.current_lcycle, lcycle_ids));
        proof {
            assert(self.lcycle_scheduled@.drop_last() =~= st0.lcycle_scheduled@);
            lemma_complete_keeps_wf(prods, st0, pp@, ok@, failed@, ready@, *self);
        }
    }
}



impl LcycleState {
    /// The totals the scheduler reports once the lcycle loop is over: the
    /// number of lcycles run, and the number of product runs (each scheduled
    /// product once, plus every failed T injection). `None` while a product
    /// is still ready, running or retrying. When the loop is over, every
    /// product appears in exactly as many lcycles as its gate needs.
    pub fn schedule_totals(&self, circuit: &Circuit) -> (r: Option<(usize, usize)>)
        requires
            deps_wf(circuit.products@),
            self.wf(circuit.products@),
            self.scheduled_products@.len() + self.t_gate_failures <= usize::MAX,
        ensures
            r is Some <==> (self.to_schedule@.len() == 0 && self.clifford_paths@.len() == 0 && self.failed_t_paths@.len() == 0),
            r matches Some((l, runs)) ==> {
                &&& l == self.current_lcycle
                &&& runs == self.scheduled_products@.len() + self.t_gate_failures
                &&& forall|x: usize| x < circuit.products@.len() ==> #[trigger] occurrences(self.lcycle_scheduled@, x)
                    == lcycles_needed(circuit.products@[x as int].gate_type)
            },
    {
        if !self.is_finished() {
            return None;
        }
        proof {
            lemma_finished_runs(circuit.products@, *self);
        }
        Some((self.current_lcycle, self.scheduled_products.len() + self.t_gate_failures))
    }
}

} // verus!
