//! Windowed partitioning of a circuit into blocks of at most `block_size`
//! qubits, used by Stages 2 and 3 of the Clifford+T pipeline.
//!
//! One pass over the operations in order grows "bins" of qubits. A bin can
//! lose one of its qubits to another bin while staying open on the others;
//! once two bins have interacted that way, each is forbidden from later
//! claiming the qubits the other holds ("blocked" qubits). A bin that is
//! closed on all its qubits waits ("pending") until every earlier block on
//! each of its qubits has been placed; when placed, it first merges with the
//! last block placed on its qubits if one block's qubits contain the other's.
//!
//! Only the qubits of the operations decide the partition, so operations are
//! named by their index and only their qubit lists are read. Sets and maps
//! keyed by qubit are kept as arrays indexed by qubit, or as flags parallel
//! to a bin's own qubit list.
use vstd::prelude::*;
use crate::lcycle::count_id;
use crate::grouping::circuit_qubits;
use crate::qgate::{blocks_fit, copy_gate, no_blocks, op_view, ops_view, Circuit, Gate, Operation};

verus! {

/// The first position from `i` on at which `s` holds a value not below `x`.
pub open spec fn pos_not_below(s: Seq<usize>, x: usize, i: int) -> int
    decreases s.len() - i,
{
    if i >= s.len() || i < 0 {
        s.len() as int
    } else if s[i] >= x {
        i
    } else {
        pos_not_below(s, x, i + 1)
    }
}

/// `s` with `x` inserted before its first value not below `x`, unless that
/// value is `x` itself: on an increasing list, insertion into a sorted set.
pub open spec fn insert_sorted(s: Seq<usize>, x: usize) -> Seq<usize> {
    let p = pos_not_below(s, x, 0);
    if p < s.len() && s[p] == x { s } else { s.insert(p, x) }
}

/// The values of `xs`, sorted increasingly and without repeats.
pub open spec fn sorted_set(xs: Seq<usize>) -> Seq<usize>
    decreases xs.len(),
{
    if xs.len() == 0 { Seq::empty() } else { insert_sorted(sorted_set(xs.drop_last()), xs.last()) }
}

proof fn lemma_pos_not_below(s: Seq<usize>, x: usize, i: int)
    requires
        0 <= i <= s.len(),
        forall|a: int, b: int| 0 <= a < b < s.len() ==> s[a] < s[b],
        forall|j: int| 0 <= j < i ==> s[j] < x,
    ensures
        i <= pos_not_below(s, x, i) <= s.len(),
        forall|j: int| 0 <= j < pos_not_below(s, x, i) ==> s[j] < x,
        forall|j: int| pos_not_below(s, x, i) <= j < s.len() ==> s[j] >= x,
    decreases s.len() - i,
{
    if i < s.len() && s[i] < x {
        lemma_pos_not_below(s, x, i + 1);
    }
}

/// Sorting into a set gives an increasing list of exactly the values given.
pub proof fn lemma_sorted_set(xs: Seq<usize>)
    ensures
        forall|a: int, b: int| 0 <= a < b < sorted_set(xs).len() ==> sorted_set(xs)[a] < sorted_set(xs)[b],
        forall|x: usize| #[trigger] sorted_set(xs).contains(x) <==> xs.contains(x),
    decreases xs.len(),
{
    if xs.len() > 0 {
        let s = sorted_set(xs.drop_last());
        let x = xs.last();
        lemma_sorted_set(xs.drop_last());
        lemma_pos_not_below(s, x, 0);
        let p = pos_not_below(s, x, 0);
        let r = sorted_set(xs);
        assert forall|y: usize| #[trigger] xs.contains(y) <==> xs.drop_last().contains(y) || y == x by {
            if xs.contains(y) {
                let i = choose|i: int| 0 <= i < xs.len() && xs[i] == y;
                if i < xs.len() - 1 { assert(xs.drop_last()[i] == y); }
            }
            if xs.drop_last().contains(y) {
                let i = choose|i: int| 0 <= i < xs.drop_last().len() && xs.drop_last()[i] == y;
                assert(xs[i] == y);
            }
            if y == x { assert(xs[xs.len() - 1] == y); }
        }
        if p < s.len() && s[p] == x {
            assert(s.contains(x));
        } else {
            assert(r == s.insert(p, x));
            assert forall|y: usize| #[trigger] r.contains(y) <==> s.contains(y) || y == x by {
                if r.contains(y) {
                    let i = choose|i: int| 0 <= i < r.len() && r[i] == y;
                    if i < p { assert(s[i] == y); } else if i > p { assert(s[i - 1] == y); }
                }
                if s.contains(y) {
                    let i = choose|i: int| 0 <= i < s.len() && s[i] == y;
                    if i < p { assert(r[i] == y); } else { assert(r[i + 1] == y); }
                }
                if y == x { assert(r[p] == y); }
            }
            assert forall|a: int, b: int| 0 <= a < b < r.len() implies r[a] < r[b] by {
                if b < p {
                    assert(r[a] == s[a] && r[b] == s[b]);
                } else if b == p {
                    assert(r[a] == s[a]);
                } else if a < p {
                    assert(r[a] == s[a] && r[b] == s[b - 1]);
                    assert(s[b - 1] >= x);
                    assert(s[b - 1] != x || p < s.len());
                    if b - 1 == p { assert(s[p] != x); }
                    if b - 1 > p { assert(s[p] < s[b - 1]); assert(s[p] >= x); }
                } else if a == p {
                    assert(r[b] == s[b - 1]);
                    if b - 1 == p { assert(s[p] >= x && s[p] != x); } else { assert(s[p] < s[b - 1]); assert(s[p] >= x); }
                } else {
                    assert(r[a] == s[a - 1] && r[b] == s[b - 1]);
                }
            }
        }
    }
}

/// Inserts `x` into the increasing list `s` as `insert_sorted` describes.
fn insert_sorted_exec(s: &mut Vec<usize>, x: usize)
    ensures
        final(s)@ == insert_sorted(old(s)@, x),
{
    let mut p: usize = 0;
    while p < s.len() && s[p] < x
        invariant
            p <= s@.len(),
            pos_not_below(s@, x, p as int) == pos_not_below(s@, x, 0),
        decreases s@.len() - p,
    {
        p += 1;
    }
    if p < s.len() && s[p] == x {
        return;
    }
    s.insert(p, x);
}

/// The earliest layer of each operation (the first at which all its qubits
/// are free), each qubit's next free layer, and the layer of each qubit's
/// first operation, once the first `k` operations are placed; and whether
/// each qubit has been touched.
pub struct CycleModel {
    pub cycles: Seq<usize>,
    pub next_cycle: Seq<usize>,
    pub first_cycle: Seq<usize>,
    pub touched: Seq<bool>,
}

/// The largest of `next[qs[j]]` for `j < m` (0 for none).
pub open spec fn max_next(next: Seq<usize>, qs: Seq<usize>, m: int) -> usize
    decreases m,
{
    if m <= 0 {
        0
    } else {
        let prev = max_next(next, qs, m - 1);
        if next[qs[m - 1] as int] > prev { next[qs[m - 1] as int] } else { prev }
    }
}

/// The cycle state after the first `j` qubits of an operation at layer `c`
/// have been marked busy.
pub open spec fn mark_qubits(st: CycleModel, qs: Seq<usize>, c: usize, j: int) -> CycleModel
    decreases j,
{
    if j <= 0 {
        st
    } else {
        let prev = mark_qubits(st, qs, c, j - 1);
        let q = qs[j - 1] as int;
        let next = prev.next_cycle.update(q, (c + 1) as usize);
        if !prev.touched[q] {
            CycleModel { next_cycle: next, touched: prev.touched.update(q, true), first_cycle: prev.first_cycle.update(q, c), ..prev }
        } else {
            CycleModel { next_cycle: next, ..prev }
        }
    }
}

/// The cycle state after the first `k` operations.
pub open spec fn cycles_upto(ops: Seq<Seq<usize>>, n: nat, k: int) -> CycleModel
    decreases k,
{
    if k <= 0 {
        CycleModel {
            cycles: Seq::empty(),
            next_cycle: Seq::new(n, |q: int| 0usize),
            first_cycle: Seq::new(n, |q: int| 0usize),
            touched: Seq::new(n, |q: int| false),
        }
    } else {
        let prev = cycles_upto(ops, n, k - 1);
        let qs = ops[k - 1];
        let c = max_next(prev.next_cycle, qs, qs.len() as int);
        mark_qubits(CycleModel { cycles: prev.cycles.push(c), ..prev }, qs, c, qs.len() as int)
    }
}

/// The largest of the first `m` entries of `s` (0 for none).
pub open spec fn max_of(s: Seq<usize>, m: int) -> usize
    decreases m,
{
    if m <= 0 { 0 } else if s[m - 1] > max_of(s, m - 1) { s[m - 1] } else { max_of(s, m - 1) }
}

/// Every qubit named by an operation is below `n`.
pub open spec fn qubits_below(ops: Seq<Seq<usize>>, n: nat) -> bool {
    forall|i: int, j: int| 0 <= i < ops.len() && 0 <= j < ops[i].len() ==> (#[trigger] ops[i][j]) < n
}

/// The qubit lists of the operations.
pub open spec fn qubit_lists(ops: Seq<Vec<usize>>) -> Seq<Seq<usize>> {
    ops.map_values(|v: Vec<usize>| v@)
}

proof fn lemma_cycles_bounded(ops: Seq<Seq<usize>>, n: nat, k: int)
    requires
        0 <= k <= ops.len(),
        qubits_below(ops, n),
    ensures
        cycles_upto(ops, n, k).next_cycle.len() == n,
        cycles_upto(ops, n, k).first_cycle.len() == n,
        cycles_upto(ops, n, k).touched.len() == n,
        cycles_upto(ops, n, k).cycles.len() == k,
        forall|q: int| 0 <= q < n ==> #[trigger] cycles_upto(ops, n, k).next_cycle[q] <= k,
        forall|i: int| 0 <= i < k ==> #[trigger] cycles_upto(ops, n, k).cycles[i] < k,
    decreases k,
{
    if k > 0 {
        lemma_cycles_bounded(ops, n, k - 1);
        let prev = cycles_upto(ops, n, k - 1);
        let qs = ops[k - 1];
        lemma_max_next_bounded(prev.next_cycle, qs, qs.len() as int, n, k - 1);
        let c = max_next(prev.next_cycle, qs, qs.len() as int);
        let st = CycleModel { cycles: prev.cycles.push(c), ..prev };
        assert forall|j: int| 0 <= j < qs.len() implies (#[trigger] qs[j]) < n by {
            assert(ops[k - 1][j] < n);
        }
        lemma_mark_qubits_bounded(st, qs, c, qs.len() as int, n, k);
    }
}

proof fn lemma_max_next_bounded(next: Seq<usize>, qs: Seq<usize>, m: int, n: nat, bound: int)
    requires
        next.len() == n,
        forall|q: int| 0 <= q < n ==> #[trigger] next[q] <= bound,
        forall|j: int| 0 <= j < qs.len() ==> (#[trigger] qs[j]) < n,
        m <= qs.len(),
        bound >= 0,
    ensures
        max_next(next, qs, m) <= bound,
    decreases m,
{
    if m > 0 {
        lemma_max_next_bounded(next, qs, m - 1, n, bound);
        assert(qs[m - 1] < n);
    }
}

proof fn lemma_mark_qubits_bounded(st: CycleModel, qs: Seq<usize>, c: usize, j: int, n: nat, k: int)
    requires
        st.next_cycle.len() == n,
        st.first_cycle.len() == n,
        st.touched.len() == n,
        forall|q: int| 0 <= q < n ==> #[trigger] st.next_cycle[q] <= k,
        forall|i: int| 0 <= i < qs.len() ==> (#[trigger] qs[i]) < n,
        c < k,
        j <= qs.len(),
    ensures
        mark_qubits(st, qs, c, j).next_cycle.len() == n,
        mark_qubits(st, qs, c, j).first_cycle.len() == n,
        mark_qubits(st, qs, c, j).touched.len() == n,
        mark_qubits(st, qs, c, j).cycles == st.cycles,
        forall|q: int| 0 <= q < n ==> #[trigger] mark_qubits(st, qs, c, j).next_cycle[q] <= k,
    decreases j,
{
    if j > 0 {
        lemma_mark_qubits_bounded(st, qs, c, j - 1, n, k);
        assert(qs[j - 1] < n);
    }
}

/// The layers of the operations, the first layer of each qubit, and the
/// layer after the last, as `cycles_upto` and `max_of` describe.
fn assign_cycles(n_qubits: usize, ops: &Vec<Vec<usize>>) -> (r: (Vec<usize>, Vec<usize>, usize))
    requires
        qubits_below(qubit_lists(ops@), n_qubits as nat),
    ensures
        r.0@ == cycles_upto(qubit_lists(ops@), n_qubits as nat, ops@.len() as int).cycles,
        r.1@ == cycles_upto(qubit_lists(ops@), n_qubits as nat, ops@.len() as int).first_cycle,
        r.2 == max_of(cycles_upto(qubit_lists(ops@), n_qubits as nat, ops@.len() as int).next_cycle, n_qubits as int),
{
    let ghost qs = qubit_lists(ops@);
    let ghost n = n_qubits as nat;
    let mut next_cycle: Vec<usize> = Vec::new();
    let mut first_cycle: Vec<usize> = Vec::new();
    let mut touched: Vec<bool> = Vec::new();
    let mut q: usize = 0;
    while q < n_qubits
        invariant
            q <= n_qubits,
            next_cycle@ == Seq::new(q as nat, |i: int| 0usize),
            first_cycle@ == Seq::new(q as nat, |i: int| 0usize),
            touched@ == Seq::new(q as nat, |i: int| false),
        decreases n_qubits - q,
    {
        next_cycle.push(0);
        first_cycle.push(0);
        touched.push(false);
        q += 1;
        assert(next_cycle@ =~= Seq::new(q as nat, |i: int| 0usize));
        assert(first_cycle@ =~= Seq::new(q as nat, |i: int| 0usize));
        assert(touched@ =~= Seq::new(q as nat, |i: int| false));
    }
    let mut cycles: Vec<usize> = Vec::new();
    let total = ops.len();
    let mut k: usize = 0;
    while k < ops.len()
        invariant
            k <= ops@.len(),
            total == ops@.len(),
            qs == qubit_lists(ops@),
            n == n_qubits as nat,
            qubits_below(qs, n),
            (CycleModel { cycles: cycles@, next_cycle: next_cycle@, first_cycle: first_cycle@, touched: touched@ })
                == cycles_upto(qs, n, k as int),
        decreases ops@.len() - k,
    {
        proof { lemma_cycles_bounded(qs, n, k as int); }
        let op = &ops[k];
        proof { assert(qs[k as int] == op@); }
        let mut c: usize = 0;
        let mut j: usize = 0;
        while j < op.len()
            invariant
                j <= op@.len(),
                qs[k as int] == op@,
                k < qs.len(),
                qubits_below(qs, n),
                next_cycle@.len() == n,
                forall|q: int| 0 <= q < n ==> #[trigger] next_cycle@[q] <= k,
                c == max_next(next_cycle@, op@, j as int),
            decreases op@.len() - j,
        {
            proof { assert(qs[k as int][j as int] < n); }
            if next_cycle[op[j]] > c {
                c = next_cycle[op[j]];
            }
            j += 1;
        }
        proof { lemma_max_next_bounded(next_cycle@, op@, op@.len() as int, n, k as int); }
        cycles.push(c);
        let ghost st0 = CycleModel { cycles: cycles@, next_cycle: next_cycle@, first_cycle: first_cycle@, touched: touched@ };
        let mut j: usize = 0;
        while j < op.len()
            invariant
                j <= op@.len(),
                qs[k as int] == op@,
                k < qs.len(),
                qubits_below(qs, n),
                c <= k,
                k < total,
                st0.next_cycle.len() == n,
                st0.first_cycle.len() == n,
                st0.touched.len() == n,
                (CycleModel { cycles: cycles@, next_cycle: next_cycle@, first_cycle: first_cycle@, touched: touched@ })
                    == mark_qubits(st0, op@, c, j as int),
                next_cycle@.len() == n,
                first_cycle@.len() == n,
                touched@.len() == n,
            decreases op@.len() - j,
        {
            proof { assert(qs[k as int][j as int] < n); }
            let qq = op[j];
            next_cycle.set(qq, c + 1);
            if !touched[qq] {
                touched.set(qq, true);
                first_cycle.set(qq, c);
            }
            j += 1;
        }
        k += 1;
    }
    proof { lemma_cycles_bounded(qs, n, ops@.len() as int); }
    let mut final_cycle: usize = 0;
    let mut q: usize = 0;
    while q < n_qubits
        invariant
            q <= n_qubits,
            next_cycle@.len() == n_qubits,
            final_cycle == max_of(next_cycle@, q as int),
        decreases n_qubits - q,
    {
        if next_cycle[q] > final_cycle {
            final_cycle = next_cycle[q];
        }
        q += 1;
    }
    (cycles, first_cycle, final_cycle)
}

/// A bin as a value: the qubits ever added (in order), with flags parallel
/// to them saying which are still open, the layer each joined and the layer
/// each was closed at; per qubit of the circuit, whether the bin is blocked
/// from claiming it; and its operations, in order.
pub struct BinModel {
    pub qubits: Seq<usize>,
    pub active: Seq<bool>,
    pub starts: Seq<usize>,
    pub ends: Seq<Option<usize>>,
    pub blocked: Seq<bool>,
    pub ops: Seq<usize>,
}

/// A partition candidate under construction.
struct Bin {
    qubits: Vec<usize>,
    active: Vec<bool>,
    starts: Vec<usize>,
    ends: Vec<Option<usize>>,
    blocked: Vec<bool>,
    ops: Vec<usize>,
}

spec fn bin_view(b: Bin) -> BinModel {
    BinModel { qubits: b.qubits@, active: b.active@, starts: b.starts@, ends: b.ends@, blocked: b.blocked@, ops: b.ops@ }
}

/// An empty bin for a circuit on `n` qubits.
pub open spec fn empty_bin(n: nat) -> BinModel {
    BinModel {
        qubits: Seq::empty(),
        active: Seq::empty(),
        starts: Seq::empty(),
        ends: Seq::empty(),
        blocked: Seq::new(n, |q: int| false),
        ops: Seq::empty(),
    }
}

/// The parallel lists of the bin have one entry per qubit, and its blocked
/// flags one per qubit of the circuit.
pub open spec fn bin_shaped(b: BinModel, n: nat) -> bool {
    &&& b.active.len() == b.qubits.len()
    &&& b.starts.len() == b.qubits.len()
    &&& b.ends.len() == b.qubits.len()
    &&& b.blocked.len() == n
}

/// Qubit `q` is still open in bin `b`.
pub open spec fn is_active(b: BinModel, q: usize) -> bool {
    exists|j: int| 0 <= j < b.qubits.len() && b.qubits[j] == q && b.active[j]
}

/// How many distinct values `s` holds.
pub open spec fn distinct_count(s: Seq<usize>) -> nat
    decreases s.len(),
{
    if s.len() == 0 {
        0
    } else {
        distinct_count(s.drop_last()) + (if s.drop_last().contains(s.last()) { 0nat } else { 1nat })
    }
}

proof fn lemma_distinct_count_prefix(s: Seq<usize>, i: int, m: int)
    requires
        0 <= i <= m <= s.len(),
    ensures
        distinct_count(s.take(i)) <= distinct_count(s.take(m)),
    decreases m - i,
{
    if i < m {
        lemma_distinct_count_prefix(s, i, m - 1);
        assert(s.take(m).drop_last() =~= s.take(m - 1));
    }
}

/// Bin `b` can take an operation on `qs`: none of them is blocked unless
/// still open in `b`, none was closed in `b`, and the qubits together fit in
/// the larger of `block_size` and the bin's current size.
pub open spec fn can_accommodate(b: BinModel, qs: Seq<usize>, block_size: usize) -> bool {
    let limit = if block_size > b.qubits.len() { block_size as nat } else { b.qubits.len() };
    &&& forall|j: int| 0 <= j < qs.len() ==> !(b.blocked[qs[j] as int] && !is_active(b, #[trigger] qs[j]))
    &&& forall|j: int| 0 <= j < qs.len() ==> !b.qubits.contains(#[trigger] qs[j]) || is_active(b, qs[j])
    &&& distinct_count(b.qubits + qs) <= limit
}

/// Bin `b` with the qubits of `qs` that are open in it closed at layer
/// `c - 1` (or 0).
pub open spec fn close_model(b: BinModel, qs: Seq<usize>, c: usize) -> BinModel {
    let end = if c > 0 { (c - 1) as usize } else { 0usize };
    BinModel {
        active: Seq::new(b.qubits.len(), |j: int| b.active[j] && !qs.contains(b.qubits[j])),
        ends: Seq::new(b.qubits.len(), |j: int| if b.active[j] && qs.contains(b.qubits[j]) { Some(end) } else { b.ends[j] }),
        ..b
    }
}

/// No qubit is open in bin `b`.
pub open spec fn all_closed(b: BinModel) -> bool {
    forall|j: int| 0 <= j < b.active.len() ==> !#[trigger] b.active[j]
}

/// Bin `b` after the first `j` qubits of `qs` have joined it at layer `c`
/// (those it does not hold yet, in order).
pub open spec fn join_qubits(b: BinModel, qs: Seq<usize>, c: usize, j: int) -> BinModel
    decreases j,
{
    if j <= 0 {
        b
    } else {
        let prev = join_qubits(b, qs, c, j - 1);
        let q = qs[j - 1];
        if prev.qubits.contains(q) {
            prev
        } else {
            BinModel {
                qubits: prev.qubits.push(q),
                active: prev.active.push(true),
                starts: prev.starts.push(c),
                ends: prev.ends.push(None),
                ..prev
            }
        }
    }
}

/// Bin `b` after operation `i` on `qs` joins it at layer `c`.
pub open spec fn add_op_model(b: BinModel, qs: Seq<usize>, i: usize, c: usize) -> BinModel {
    let joined = join_qubits(b, qs, c, qs.len() as int);
    BinModel { ops: joined.ops.push(i), ..joined }
}

/// Whether `x` occurs in `v`.
fn holds(v: &Vec<usize>, x: usize) -> (r: bool)
    ensures
        r == v@.contains(x),
{
    let mut i: usize = 0;
    while i < v.len()
        invariant
            i <= v@.len(),
            forall|j: int| 0 <= j < i ==> v@[j] != x,
        decreases v@.len() - i,
    {
        if v[i] == x {
            return true;
        }
        i += 1;
    }
    false
}

impl Bin {
    fn new(n: usize) -> (b: Bin)
        ensures
            bin_view(b) == empty_bin(n as nat),
    {
        let mut blocked: Vec<bool> = Vec::new();
        let mut q: usize = 0;
        while q < n
            invariant
                q <= n,
                blocked@ == Seq::new(q as nat, |i: int| false),
            decreases n - q,
        {
            blocked.push(false);
            q += 1;
            assert(blocked@ =~= Seq::new(q as nat, |i: int| false));
        }
        let b = Bin { qubits: Vec::new(), active: Vec::new(), starts: Vec::new(), ends: Vec::new(), blocked, ops: Vec::new() };
        assert(bin_view(b) =~= empty_bin(n as nat));
        b
    }

    /// Qubit `q` is still open in this bin.
    fn is_active(&self, q: usize) -> (r: bool)
        requires
            bin_shaped(bin_view(*self), self.blocked@.len()),
        ensures
            r == is_active(bin_view(*self), q),
    {
        let mut j: usize = 0;
        while j < self.qubits.len()
            invariant
                j <= self.qubits@.len(),
                self.active@.len() == self.qubits@.len(),
                forall|i: int| 0 <= i < j ==> !(self.qubits@[i] == q && self.active@[i]),
            decreases self.qubits@.len() - j,
        {
            if self.qubits[j] == q && self.active[j] {
                proof {
                    let b = bin_view(*self);
                    assert(b.qubits[j as int] == q && b.active[j as int]);
                }
                return true;
            }
            j += 1;
        }
        false
    }

    /// Whether this bin can take an operation on `qs`, as `can_accommodate` describes.
    fn can_accommodate(&self, qs: &Vec<usize>, block_size: usize) -> (r: bool)
        requires
            bin_shaped(bin_view(*self), self.blocked@.len()),
            forall|j: int| 0 <= j < qs@.len() ==> (#[trigger] qs@[j]) < self.blocked@.len(),
        ensures
            r == can_accommodate(bin_view(*self), qs@, block_size),
    {
        let ghost b = bin_view(*self);
        let mut j: usize = 0;
        while j < qs.len()
            invariant
                j <= qs@.len(),
                b == bin_view(*self),
                bin_shaped(b, self.blocked@.len()),
                forall|i: int| 0 <= i < qs@.len() ==> (#[trigger] qs@[i]) < self.blocked@.len(),
                forall|i: int| 0 <= i < j ==> !(b.blocked[qs@[i] as int] && !is_active(b, #[trigger] qs@[i])),
            decreases qs@.len() - j,
        {
            if self.blocked[qs[j]] && !self.is_active(qs[j]) {
                return false;
            }
            j += 1;
        }
        let mut j: usize = 0;
        while j < qs.len()
            invariant
                j <= qs@.len(),
                b == bin_view(*self),
                bin_shaped(b, self.blocked@.len()),
                forall|i: int| 0 <= i < j ==> !b.qubits.contains(#[trigger] qs@[i]) || is_active(b, qs@[i]),
            decreases qs@.len() - j,
        {
            if holds(&self.qubits, qs[j]) && !self.is_active(qs[j]) {
                return false;
            }
            j += 1;
        }
        let limit: usize = if block_size > self.qubits.len() { block_size } else { self.qubits.len() };
        let ghost all = b.qubits + qs@;
        let mut seen: Vec<usize> = Vec::new();
        let mut count: usize = 0;
        let mut i: usize = 0;
        while i < self.qubits.len()
            invariant
                i <= self.qubits@.len(),
                b == bin_view(*self),
                all == b.qubits + qs@,
                seen@ == all.take(i as int),
                count == distinct_count(all.take(i as int)),
                count <= limit,
                limit == (if block_size > b.qubits.len() { block_size as nat } else { b.qubits.len() }),
            decreases self.qubits@.len() - i,
        {
            assert(all.take(i as int + 1).drop_last() =~= all.take(i as int));
            assert(all[i as int] == self.qubits@[i as int]);
            if !holds(&seen, self.qubits[i]) {
                if count >= limit {
                    proof {
                        lemma_distinct_count_prefix(all, i as int + 1, all.len() as int);
                        assert(all.take(i as int + 1).last() == all[i as int]);
                        assert(distinct_count(all.take(i as int + 1)) == count + 1);
                        assert(all.take(all.len() as int) =~= all);
                    }
                    return false;
                }
                count += 1;
            }
            seen.push(self.qubits[i]);
            assert(seen@ =~= all.take(i as int + 1));
            i += 1;
        }
        let base = self.qubits.len();
        let mut j: usize = 0;
        while j < qs.len()
            invariant
                j <= qs@.len(),
                base == b.qubits.len(),
                b == bin_view(*self),
                all == b.qubits + qs@,
                seen@ == all.take(base + j),
                count == distinct_count(all.take(base + j)),
                count <= limit,
                limit == (if block_size > b.qubits.len() { block_size as nat } else { b.qubits.len() }),
                base + qs@.len() == all.len(),
            decreases qs@.len() - j,
        {
            assert(all.take(base + j + 1).drop_last() =~= all.take(base + j));
            assert(all[base + j] == qs@[j as int]);
            if !holds(&seen, qs[j]) {
                if count >= limit {
                    proof {
                        lemma_distinct_count_prefix(all, base + j + 1, all.len() as int);
                        assert(all.take(base + j + 1).last() == all[base + j]);
                        assert(distinct_count(all.take(base + j + 1)) == count + 1);
                        assert(all.take(all.len() as int) =~= all);
                    }
                    return false;
                }
                count += 1;
            }
            seen.push(qs[j]);
            assert(seen@ =~= all.take(base + j + 1));
            j += 1;
        }
        assert(all.take(all.len() as int) =~= all);
        true
    }

    /// Closes the qubits of `qs` that are open in this bin, at layer `c - 1`
    /// (or 0), and says whether the bin has no open qubit left.
    fn close(&mut self, qs: &Vec<usize>, c: usize) -> (empty: bool)
        requires
            bin_shaped(bin_view(*old(self)), old(self).blocked@.len()),
        ensures
            bin_view(*final(self)) == close_model(bin_view(*old(self)), qs@, c),
            empty == all_closed(close_model(bin_view(*old(self)), qs@, c)),
    {
        let ghost b = bin_view(*self);
        let ghost target = close_model(b, qs@, c);
        let end: usize = if c > 0 { c - 1 } else { 0 };
        let mut j: usize = 0;
        while j < self.qubits.len()
            invariant
                j <= self.qubits@.len(),
                b.qubits == self.qubits@,
                b.starts == self.starts@,
                b.blocked == self.blocked@,
                b.ops == self.ops@,
                bin_shaped(b, b.blocked.len()),
                target == close_model(b, qs@, c),
                end == (if c > 0 { (c - 1) as usize } else { 0usize }),
                self.active@.len() == b.qubits.len(),
                self.ends@.len() == b.qubits.len(),
                forall|i: int| 0 <= i < j ==> self.active@[i] == target.active[i],
                forall|i: int| 0 <= i < j ==> self.ends@[i] == target.ends[i],
                forall|i: int| j <= i < b.qubits.len() ==> self.active@[i] == b.active[i] && self.ends@[i] == b.ends[i],
            decreases self.qubits@.len() - j,
        {
            let hit = self.active[j] && holds(qs, self.qubits[j]);
            if hit {
                self.active.set(j, false);
                self.ends.set(j, Some(end));
            }
            proof {
                assert(target.active[j as int] == (b.active[j as int] && !qs@.contains(b.qubits[j as int])));
                assert(target.ends[j as int] == (if b.active[j as int] && qs@.contains(b.qubits[j as int]) { Some(end) } else { b.ends[j as int] }));
            }
            j += 1;
        }
        proof {
            assert(self.active@ =~= target.active);
            assert(self.ends@ =~= target.ends);
            assert(bin_view(*self) == target);
        }
        let mut k: usize = 0;
        while k < self.active.len()
            invariant
                k <= self.active@.len(),
                bin_view(*self) == target,
                target == close_model(b, qs@, c),
                b == bin_view(*old(self)),
                forall|i: int| 0 <= i < k ==> !self.active@[i],
            decreases self.active@.len() - k,
        {
            if self.active[k] {
                proof {
                    assert(target.active[k as int]);
                    assert(!all_closed(target));
                }
                return false;
            }
            k += 1;
        }
        true
    }

    /// Adds operation `i` on `qs` at layer `c`, as `add_op_model` describes.
    fn add_op(&mut self, qs: &Vec<usize>, i: usize, c: usize)
        requires
            bin_shaped(bin_view(*old(self)), old(self).blocked@.len()),
        ensures
            bin_view(*final(self)) == add_op_model(bin_view(*old(self)), qs@, i, c),
            bin_shaped(bin_view(*final(self)), old(self).blocked@.len()),
    {
        let ghost b = bin_view(*self);
        let mut j: usize = 0;
        while j < qs.len()
            invariant
                j <= qs@.len(),
                bin_view(*self) == join_qubits(b, qs@, c, j as int),
                bin_shaped(bin_view(*self), b.blocked.len()),
            decreases qs@.len() - j,
        {
            if !holds(&self.qubits, qs[j]) {
                self.qubits.push(qs[j]);
                self.active.push(true);
                self.starts.push(c);
                self.ends.push(None);
            }
            j += 1;
        }
        self.ops.push(i);
    }
}

/// A placed block as a value: its qubits and its operations.
pub struct PlacedModel {
    pub qubits: Seq<usize>,
    pub ops: Seq<usize>,
}

/// The partitioner's state as a value: the bins; per qubit, the bin that
/// holds it open; the bins closed on all their qubits that wait to be
/// placed; per qubit, the layer from which the next block on it starts; the
/// placed blocks (emptied when merged into a later one); and per qubit, the
/// last placed block on it.
pub struct PartModel {
    pub bins: Seq<BinModel>,
    pub active_bin_of: Seq<Option<usize>>,
    pub pending: Seq<usize>,
    pub dividing_line: Seq<usize>,
    pub placed: Seq<Option<PlacedModel>>,
    pub rear_of: Seq<Option<usize>>,
}

struct Placed {
    qubits: Vec<usize>,
    ops: Vec<usize>,
}

struct PartState {
    bins: Vec<Bin>,
    active_bin_of: Vec<Option<usize>>,
    pending: Vec<usize>,
    dividing_line: Vec<usize>,
    placed: Vec<Option<Placed>>,
    rear_of: Vec<Option<usize>>,
}

spec fn placed_view(p: Option<Placed>) -> Option<PlacedModel> {
    match p {
        Some(x) => Some(PlacedModel { qubits: x.qubits@, ops: x.ops@ }),
        None => None,
    }
}

spec fn state_view(s: PartState) -> PartModel {
    PartModel {
        bins: s.bins@.map_values(|b: Bin| bin_view(b)),
        active_bin_of: s.active_bin_of@,
        pending: s.pending@,
        dividing_line: s.dividing_line@,
        placed: s.placed@.map_values(|p: Option<Placed>| placed_view(p)),
        rear_of: s.rear_of@,
    }
}

/// The state is well shaped for a circuit on `n` qubits: every bin is
/// shaped, its qubits are below `n`, the per-qubit arrays have `n` entries,
/// open and pending bins exist, and placed blocks name qubits below `n`.
pub open spec fn state_ok(m: PartModel, n: nat) -> bool {
    &&& forall|b: int| 0 <= b < m.bins.len() ==> bin_shaped(#[trigger] m.bins[b], n)
    &&& forall|b: int, j: int| 0 <= b < m.bins.len() && 0 <= j < m.bins[b].qubits.len() ==> (#[trigger] m.bins[b].qubits[j]) < n
    &&& m.active_bin_of.len() == n
    &&& m.dividing_line.len() == n
    &&& m.rear_of.len() == n
    &&& forall|q: int| 0 <= q < n ==> (#[trigger] m.active_bin_of[q] matches Some(b) ==> b < m.bins.len())
    &&& forall|p: int| 0 <= p < m.pending.len() ==> (#[trigger] m.pending[p]) < m.bins.len()
    &&& forall|c: int, j: int| 0 <= c < m.placed.len() && m.placed[c] is Some && 0 <= j < m.placed[c]->0.qubits.len()
        ==> (#[trigger] m.placed[c]->0.qubits[j]) < n
}

/// The state after bin `idx` closes the qubits of `qs` at layer `c - 1`:
/// a qubit it loses no longer has an open bin, and the bin waits to be
/// placed once nothing in it is open.
pub open spec fn close_in(st: PartModel, idx: usize, qs: Seq<usize>, c: usize) -> PartModel {
    let b2 = close_model(st.bins[idx as int], qs, c);
    PartModel {
        bins: st.bins.update(idx as int, b2),
        active_bin_of: Seq::new(st.active_bin_of.len(), |q: int|
            if qs.contains(q as usize) && st.active_bin_of[q] == Some(idx) { None } else { st.active_bin_of[q] }),
        pending: if all_closed(b2) { st.pending.push(idx) } else { st.pending },
        ..st
    }
}

proof fn lemma_close_in_ok(st: PartModel, idx: usize, qs: Seq<usize>, c: usize, n: nat)
    requires
        state_ok(st, n),
        idx < st.bins.len(),
    ensures
        state_ok(close_in(st, idx, qs, c), n),
        close_in(st, idx, qs, c).bins.len() == st.bins.len(),
        close_in(st, idx, qs, c).placed == st.placed,
{
    let r = close_in(st, idx, qs, c);
    assert forall|b: int| 0 <= b < r.bins.len() implies bin_shaped(#[trigger] r.bins[b], n) by {
        if b != idx { assert(r.bins[b] == st.bins[b]); } else { assert(bin_shaped(st.bins[b], n)); }
    }
    assert forall|b: int, j: int| 0 <= b < r.bins.len() && 0 <= j < r.bins[b].qubits.len() implies (#[trigger] r.bins[b].qubits[j]) < n by {
        if b != idx { assert(r.bins[b] == st.bins[b]); } else { assert(r.bins[b].qubits == st.bins[b].qubits); }
    }
    assert forall|p: int| 0 <= p < r.pending.len() implies (#[trigger] r.pending[p]) < r.bins.len() by {
        if p < st.pending.len() { assert(r.pending[p] == st.pending[p]); }
    }
}

impl PartState {
    /// Takes bin `idx` out, leaving an empty bin in its place.
    fn take_bin(&mut self, idx: usize, n: usize) -> (b: Bin)
        requires
            idx < old(self).bins@.len(),
        ensures
            bin_view(b) == state_view(*old(self)).bins[idx as int],
            final(self).bins@.len() == old(self).bins@.len(),
            forall|i: int| 0 <= i < old(self).bins@.len() && i != idx ==> #[trigger] final(self).bins@[i] == old(self).bins@[i],
            final(self).active_bin_of == old(self).active_bin_of,
            final(self).pending == old(self).pending,
            final(self).dividing_line == old(self).dividing_line,
            final(self).placed == old(self).placed,
            final(self).rear_of == old(self).rear_of,
    {
        let mut b = Bin::new(n);
        self.bins.set_and_swap(idx, &mut b);
        b
    }

    /// Puts bin `b` back in place `idx`.
    fn put_bin(&mut self, idx: usize, b: Bin)
        requires
            idx < old(self).bins@.len(),
        ensures
            state_view(*final(self)) == (PartModel { bins: state_view(*old(self)).bins.update(idx as int, bin_view(b)), ..state_view(*old(self)) }),
            final(self).bins@.len() == old(self).bins@.len(),
    {
        let ghost before = state_view(*self);
        let ghost bv = bin_view(b);
        let mut x = b;
        self.bins.set_and_swap(idx, &mut x);
        assert(state_view(*self).bins =~= before.bins.update(idx as int, bv));
    }

    /// Closes the qubits of `qs` in bin `idx` at layer `c - 1`, as `close_in` describes.
    fn close_in(&mut self, idx: usize, qs: &Vec<usize>, c: usize, n: usize)
        requires
            state_ok(state_view(*old(self)), n as nat),
            idx < old(self).bins@.len(),
            forall|j: int| 0 <= j < qs@.len() ==> (#[trigger] qs@[j]) < n,
        ensures
            state_view(*final(self)) == close_in(state_view(*old(self)), idx, qs@, c),
            final(self).bins@.len() == old(self).bins@.len(),
    {
        let ghost st = state_view(*self);
        let ghost target = close_in(st, idx, qs@, c);
        let mut b = self.take_bin(idx, n);
        assert(bin_shaped(bin_view(b), n as nat));
        let empty = b.close(qs, c);
        self.put_bin(idx, b);
        let mut q: usize = 0;
        while q < qs.len()
            invariant
                q <= qs@.len(),
                forall|j: int| 0 <= j < qs@.len() ==> (#[trigger] qs@[j]) < n,
                self.active_bin_of@.len() == n,
                st.active_bin_of.len() == n,
                forall|x: int| 0 <= x < n ==> #[trigger] self.active_bin_of@[x]
                    == (if qs@.take(q as int).contains(x as usize) && st.active_bin_of[x] == Some(idx) { None } else { st.active_bin_of[x] }),
                state_view(*self).bins == target.bins,
                self.pending@ == st.pending,
                self.dividing_line@ == st.dividing_line,
                state_view(*self).placed == st.placed,
                self.rear_of@ == st.rear_of,
            decreases qs@.len() - q,
        {
            let qq = qs[q];
            if self.active_bin_of[qq] == Some(idx) {
                self.active_bin_of.set(qq, None);
            }
            proof {
                assert forall|x: int| 0 <= x < n implies #[trigger] self.active_bin_of@[x]
                    == (if qs@.take(q as int + 1).contains(x as usize) && st.active_bin_of[x] == Some(idx) { None } else { st.active_bin_of[x] }) by {
                    assert(qs@.take(q as int + 1).contains(x as usize) == (qs@.take(q as int).contains(x as usize) || qs@[q as int] == x as usize)) by {
                        if qs@.take(q as int + 1).contains(x as usize) {
                            let i = choose|i: int| 0 <= i < q + 1 && #[trigger] qs@.take(q as int + 1)[i] == x as usize;
                            if i < q { assert(qs@.take(q as int)[i] == x as usize); }
                        }
                        if qs@.take(q as int).contains(x as usize) {
                            let i = choose|i: int| 0 <= i < q && #[trigger] qs@.take(q as int)[i] == x as usize;
                            assert(qs@.take(q as int + 1)[i] == x as usize);
                        }
                        if qs@[q as int] == x as usize { assert(qs@.take(q as int + 1)[q as int] == x as usize); }
                    }
                }
            }
            q += 1;
        }
        assert(qs@.take(qs@.len() as int) =~= qs@);
        assert(self.active_bin_of@ =~= target.active_bin_of);
        if empty {
            self.pending.push(idx);
        }
        assert(state_view(*self).pending =~= target.pending);
    }
}

/// The bins that hold the first `m` qubits of `qs` open, in qubit order.
pub open spec fn open_bins_of(abo: Seq<Option<usize>>, qs: Seq<usize>, m: int) -> Seq<usize>
    decreases m,
{
    if m <= 0 {
        Seq::empty()
    } else {
        let prev = open_bins_of(abo, qs, m - 1);
        match abo[qs[m - 1] as int] {
            Some(b) => prev.push(b),
            None => prev,
        }
    }
}

/// The bins named in the first `m` entries of `abo`, in qubit order.
pub open spec fn open_bins(abo: Seq<Option<usize>>, m: int) -> Seq<usize>
    decreases m,
{
    if m <= 0 {
        Seq::empty()
    } else {
        let prev = open_bins(abo, m - 1);
        match abo[m - 1] {
            Some(b) => prev.push(b),
            None => prev,
        }
    }
}

/// The bins among the first `m` of `ov` that can take an operation on `qs`.
pub open spec fn admissible_upto(bins: Seq<BinModel>, ov: Seq<usize>, qs: Seq<usize>, block_size: usize, m: int) -> Seq<usize>
    decreases m,
{
    if m <= 0 {
        Seq::empty()
    } else {
        let prev = admissible_upto(bins, ov, qs, block_size, m - 1);
        if can_accommodate(bins[ov[m - 1] as int], qs, block_size) { prev.push(ov[m - 1]) } else { prev }
    }
}

/// The state once each of the first `m` bins of `ov` that is not in `keep`
/// has closed the qubits of `qs` at layer `c - 1`.
pub open spec fn close_rejected(st: PartModel, ov: Seq<usize>, keep: Seq<usize>, qs: Seq<usize>, c: usize, m: int) -> PartModel
    decreases m,
{
    if m <= 0 {
        st
    } else {
        let prev = close_rejected(st, ov, keep, qs, c, m - 1);
        if !keep.contains(ov[m - 1]) { close_in(prev, ov[m - 1], qs, c) } else { prev }
    }
}

/// The state once each of the first `m` bins of `adm` other than `sel` has
/// closed the qubits of `qs` at layer `c - 1`.
pub open spec fn close_others(st: PartModel, adm: Seq<usize>, sel: usize, qs: Seq<usize>, c: usize, m: int) -> PartModel
    decreases m,
{
    if m <= 0 {
        st
    } else {
        let prev = close_others(st, adm, sel, qs, c, m - 1);
        if adm[m - 1] != sel { close_in(prev, adm[m - 1], qs, c) } else { prev }
    }
}

/// Bin `b` holds every qubit of `qs`.
pub open spec fn covers(b: BinModel, qs: Seq<usize>) -> bool {
    forall|j: int| 0 <= j < qs.len() ==> b.qubits.contains(#[trigger] qs[j])
}

/// The first position from `i` on of a bin of `adm` that holds every qubit of `qs`.
pub open spec fn first_covering(bins: Seq<BinModel>, adm: Seq<usize>, qs: Seq<usize>, i: int) -> int
    decreases adm.len() - i,
{
    if i >= adm.len() || i < 0 {
        adm.len() as int
    } else if covers(bins[adm[i] as int], qs) {
        i
    } else {
        first_covering(bins, adm, qs, i + 1)
    }
}

/// The selected bin: a new one when none can take the operation, else the
/// first admissible one that already holds all its qubits, else the first admissible one.
pub open spec fn selected_bin(bins: Seq<BinModel>, adm: Seq<usize>, qs: Seq<usize>) -> usize {
    if adm.len() == 0 {
        bins.len() as usize
    } else {
        let f = first_covering(bins, adm, qs, 0);
        if f < adm.len() { adm[f] } else { adm[0] }
    }
}

/// The state once operation `i` on `qs` joins bin `sel` at layer `c`, which
/// then holds all those qubits open.
pub open spec fn with_op(st: PartModel, sel: usize, qs: Seq<usize>, i: usize, c: usize) -> PartModel {
    PartModel {
        bins: st.bins.update(sel as int, add_op_model(st.bins[sel as int], qs, i, c)),
        active_bin_of: Seq::new(st.active_bin_of.len(), |q: int| if qs.contains(q as usize) { Some(sel) } else { st.active_bin_of[q] }),
        ..st
    }
}

/// Bin `b` shares history with the qubits `selq`: it holds or is blocked on one of them.
pub open spec fn overlaps(b: BinModel, selq: Seq<usize>) -> bool {
    exists|j: int| 0 <= j < selq.len() && (b.blocked[#[trigger] selq[j] as int] || b.qubits.contains(selq[j]))
}

/// Bin `b` also blocked on the qubits `selq` and on those `selb` flags.
pub open spec fn block_more(b: BinModel, selq: Seq<usize>, selb: Seq<bool>) -> BinModel {
    BinModel { blocked: Seq::new(b.blocked.len(), |q: int| b.blocked[q] || selq.contains(q as usize) || selb[q]), ..b }
}

/// The state once each of the first `m` open bins `others`, other than
/// `sel`, that shares history with the qubits `selq` of the selected bin is
/// blocked on those qubits and on the selected bin's blocked ones.
pub open spec fn propagate(st: PartModel, sel: usize, selq: Seq<usize>, selb: Seq<bool>, others: Seq<usize>, m: int) -> PartModel
    decreases m,
{
    if m <= 0 {
        st
    } else {
        let prev = propagate(st, sel, selq, selb, others, m - 1);
        let idx = others[m - 1];
        if idx != sel && overlaps(prev.bins[idx as int], selq) {
            PartModel { bins: prev.bins.update(idx as int, block_more(prev.bins[idx as int], selq, selb)), ..prev }
        } else {
            prev
        }
    }
}

/// The state once operation `i` on `qs`, at layer `c`, has found its bin:
/// open bins that cannot take it close those qubits, the selected bin takes
/// it, the other admissible bins close those qubits, and the open bins that
/// share history with the selected one are blocked from its qubits.
pub open spec fn op_step(st: PartModel, qs: Seq<usize>, i: usize, c: usize, block_size: usize, n: nat) -> PartModel {
    let ov = sorted_set(open_bins_of(st.active_bin_of, qs, qs.len() as int));
    let adm = admissible_upto(st.bins, ov, qs, block_size, ov.len() as int);
    let s1 = close_rejected(st, ov, adm, qs, c, ov.len() as int);
    let sel = selected_bin(s1.bins, adm, qs);
    let s2 = if adm.len() == 0 { PartModel { bins: s1.bins.push(empty_bin(n)), ..s1 } } else { s1 };
    let s3 = close_others(s2, adm, sel, qs, c, adm.len() as int);
    let s4 = with_op(s3, sel, qs, i, c);
    let others = sorted_set(open_bins(s4.active_bin_of, n as int));
    propagate(s4, sel, s4.bins[sel as int].qubits, s4.bins[sel as int].blocked, others, others.len() as int)
}

proof fn lemma_sorted_set_members(xs: Seq<usize>, bound: nat)
    requires
        forall|i: int| 0 <= i < xs.len() ==> (#[trigger] xs[i]) < bound,
    ensures
        forall|i: int| 0 <= i < sorted_set(xs).len() ==> (#[trigger] sorted_set(xs)[i]) < bound,
{
    lemma_sorted_set(xs);
    assert forall|i: int| 0 <= i < sorted_set(xs).len() implies (#[trigger] sorted_set(xs)[i]) < bound by {
        assert(sorted_set(xs).contains(sorted_set(xs)[i]));
        assert(xs.contains(sorted_set(xs)[i]));
    }
}

proof fn lemma_open_bins_of_range(st: PartModel, qs: Seq<usize>, m: int, n: nat)
    requires
        state_ok(st, n),
        0 <= m <= qs.len(),
        forall|j: int| 0 <= j < qs.len() ==> (#[trigger] qs[j]) < n,
    ensures
        forall|i: int| 0 <= i < open_bins_of(st.active_bin_of, qs, m).len() ==> (#[trigger] open_bins_of(st.active_bin_of, qs, m)[i]) < st.bins.len(),
    decreases m,
{
    if m > 0 {
        lemma_open_bins_of_range(st, qs, m - 1, n);
        assert(qs[m - 1] < n);
        let q = qs[m - 1] as int;
        let prev = open_bins_of(st.active_bin_of, qs, m - 1);
        let r = open_bins_of(st.active_bin_of, qs, m);
        if let Some(b) = st.active_bin_of[q] {
            assert(b < st.bins.len());
            assert forall|i: int| 0 <= i < r.len() implies (#[trigger] r[i]) < st.bins.len() by {
                if i < prev.len() { assert(r[i] == prev[i]); }
            }
        }
    }
}

proof fn lemma_open_bins_range(st: PartModel, m: int, n: nat)
    requires
        state_ok(st, n),
        0 <= m <= n,
    ensures
        forall|i: int| 0 <= i < open_bins(st.active_bin_of, m).len() ==> (#[trigger] open_bins(st.active_bin_of, m)[i]) < st.bins.len(),
    decreases m,
{
    if m > 0 {
        lemma_open_bins_range(st, m - 1, n);
        let prev = open_bins(st.active_bin_of, m - 1);
        let r = open_bins(st.active_bin_of, m);
        if let Some(b) = st.active_bin_of[m - 1] {
            assert(b < st.bins.len());
            assert forall|i: int| 0 <= i < r.len() implies (#[trigger] r[i]) < st.bins.len() by {
                if i < prev.len() { assert(r[i] == prev[i]); }
            }
        }
    }
}

proof fn lemma_admissible_members(bins: Seq<BinModel>, ov: Seq<usize>, qs: Seq<usize>, block_size: usize, m: int)
    requires
        0 <= m <= ov.len(),
    ensures
        forall|x: usize| #[trigger] admissible_upto(bins, ov, qs, block_size, m).contains(x) ==> ov.contains(x),
    decreases m,
{
    if m > 0 {
        lemma_admissible_members(bins, ov, qs, block_size, m - 1);
        let prev = admissible_upto(bins, ov, qs, block_size, m - 1);
        assert forall|x: usize| #[trigger] admissible_upto(bins, ov, qs, block_size, m).contains(x) implies ov.contains(x) by {
            let r = admissible_upto(bins, ov, qs, block_size, m);
            let i = choose|i: int| 0 <= i < r.len() && r[i] == x;
            if i < prev.len() { assert(prev[i] == x); assert(prev.contains(x)); } else { assert(ov[m - 1] == x); }
        }
    }
}

proof fn lemma_close_rejected_ok(st: PartModel, ov: Seq<usize>, keep: Seq<usize>, qs: Seq<usize>, c: usize, m: int, n: nat)
    requires
        state_ok(st, n),
        0 <= m <= ov.len(),
        forall|i: int| 0 <= i < ov.len() ==> (#[trigger] ov[i]) < st.bins.len(),
    ensures
        state_ok(close_rejected(st, ov, keep, qs, c, m), n),
        close_rejected(st, ov, keep, qs, c, m).bins.len() == st.bins.len(),
        close_rejected(st, ov, keep, qs, c, m).placed == st.placed,
    decreases m,
{
    if m > 0 {
        lemma_close_rejected_ok(st, ov, keep, qs, c, m - 1, n);
        let prev = close_rejected(st, ov, keep, qs, c, m - 1);
        if !keep.contains(ov[m - 1]) {
            lemma_close_in_ok(prev, ov[m - 1], qs, c, n);
        }
    }
}

proof fn lemma_close_others_ok(st: PartModel, adm: Seq<usize>, sel: usize, qs: Seq<usize>, c: usize, m: int, n: nat)
    requires
        state_ok(st, n),
        0 <= m <= adm.len(),
        forall|i: int| 0 <= i < adm.len() ==> (#[trigger] adm[i]) < st.bins.len(),
    ensures
        state_ok(close_others(st, adm, sel, qs, c, m), n),
        close_others(st, adm, sel, qs, c, m).bins.len() == st.bins.len(),
        close_others(st, adm, sel, qs, c, m).placed == st.placed,
    decreases m,
{
    if m > 0 {
        lemma_close_others_ok(st, adm, sel, qs, c, m - 1, n);
        let prev = close_others(st, adm, sel, qs, c, m - 1);
        if adm[m - 1] != sel {
            lemma_close_in_ok(prev, adm[m - 1], qs, c, n);
        }
    }
}

proof fn lemma_join_qubits_ok(b: BinModel, qs: Seq<usize>, c: usize, j: int, n: nat)
    requires
        bin_shaped(b, n),
        forall|i: int| 0 <= i < b.qubits.len() ==> (#[trigger] b.qubits[i]) < n,
        forall|i: int| 0 <= i < qs.len() ==> (#[trigger] qs[i]) < n,
        0 <= j <= qs.len(),
    ensures
        bin_shaped(join_qubits(b, qs, c, j), n),
        forall|i: int| 0 <= i < join_qubits(b, qs, c, j).qubits.len() ==> (#[trigger] join_qubits(b, qs, c, j).qubits[i]) < n,
        join_qubits(b, qs, c, j).blocked == b.blocked,
        join_qubits(b, qs, c, j).ops == b.ops,
    decreases j,
{
    if j > 0 {
        lemma_join_qubits_ok(b, qs, c, j - 1, n);
        let prev = join_qubits(b, qs, c, j - 1);
        let r = join_qubits(b, qs, c, j);
        assert forall|i: int| 0 <= i < r.qubits.len() implies (#[trigger] r.qubits[i]) < n by {
            if i < prev.qubits.len() { assert(r.qubits[i] == prev.qubits[i]); } else { assert(qs[j - 1] < n); }
        }
    }
}

proof fn lemma_with_op_ok(st: PartModel, sel: usize, qs: Seq<usize>, i: usize, c: usize, n: nat)
    requires
        state_ok(st, n),
        sel < st.bins.len(),
        forall|j: int| 0 <= j < qs.len() ==> (#[trigger] qs[j]) < n,
    ensures
        state_ok(with_op(st, sel, qs, i, c), n),
        with_op(st, sel, qs, i, c).bins.len() == st.bins.len(),
        with_op(st, sel, qs, i, c).placed == st.placed,
{
    let b = st.bins[sel as int];
    assert forall|j: int| 0 <= j < b.qubits.len() implies (#[trigger] b.qubits[j]) < n by {
        assert(st.bins[sel as int].qubits[j] < n);
    }
    lemma_join_qubits_ok(b, qs, c, qs.len() as int, n);
    let r = with_op(st, sel, qs, i, c);
    assert forall|x: int| 0 <= x < r.bins.len() implies bin_shaped(#[trigger] r.bins[x], n) by {
        if x != sel { assert(r.bins[x] == st.bins[x]); }
    }
    assert forall|x: int, j: int| 0 <= x < r.bins.len() && 0 <= j < r.bins[x].qubits.len() implies (#[trigger] r.bins[x].qubits[j]) < n by {
        if x != sel { assert(r.bins[x] == st.bins[x]); }
    }
}

proof fn lemma_propagate_ok(st: PartModel, sel: usize, selq: Seq<usize>, selb: Seq<bool>, others: Seq<usize>, m: int, n: nat)
    requires
        state_ok(st, n),
        0 <= m <= others.len(),
        forall|i: int| 0 <= i < others.len() ==> (#[trigger] others[i]) < st.bins.len(),
    ensures
        state_ok(propagate(st, sel, selq, selb, others, m), n),
        propagate(st, sel, selq, selb, others, m).bins.len() == st.bins.len(),
        propagate(st, sel, selq, selb, others, m).placed == st.placed,
        propagate(st, sel, selq, selb, others, m).active_bin_of == st.active_bin_of,
    decreases m,
{
    if m > 0 {
        lemma_propagate_ok(st, sel, selq, selb, others, m - 1, n);
        let prev = propagate(st, sel, selq, selb, others, m - 1);
        let idx = others[m - 1];
        let r = propagate(st, sel, selq, selb, others, m);
        assert forall|x: int| 0 <= x < r.bins.len() implies bin_shaped(#[trigger] r.bins[x], n) by {
            if x != idx { assert(r.bins[x] == prev.bins[x]); } else { assert(bin_shaped(prev.bins[x], n)); }
        }
        assert forall|x: int, j: int| 0 <= x < r.bins.len() && 0 <= j < r.bins[x].qubits.len() implies (#[trigger] r.bins[x].qubits[j]) < n by {
            if x != idx { assert(r.bins[x] == prev.bins[x]); } else { assert(r.bins[x].qubits == prev.bins[x].qubits); }
        }
    }
}

/// A copy of `v`.
fn copy_usizes(v: &Vec<usize>) -> (r: Vec<usize>)
    ensures
        r@ == v@,
{
    let mut r: Vec<usize> = Vec::new();
    let mut i: usize = 0;
    while i < v.len()
        invariant
            i <= v@.len(),
            r@ == v@.take(i as int),
        decreases v@.len() - i,
    {
        r.push(v[i]);
        assert(r@ =~= v@.take(i as int + 1));
        i += 1;
    }
    assert(v@.take(v@.len() as int) =~= v@);
    r
}

/// A copy of `v`.
fn copy_bools(v: &Vec<bool>) -> (r: Vec<bool>)
    ensures
        r@ == v@,
{
    let mut r: Vec<bool> = Vec::new();
    let mut i: usize = 0;
    while i < v.len()
        invariant
            i <= v@.len(),
            r@ == v@.take(i as int),
        decreases v@.len() - i,
    {
        r.push(v[i]);
        assert(r@ =~= v@.take(i as int + 1));
        i += 1;
    }
    assert(v@.take(v@.len() as int) =~= v@);
    r
}

impl Bin {
    /// This bin holds every qubit of `qs`.
    fn covers(&self, qs: &Vec<usize>) -> (r: bool)
        ensures
            r == covers(bin_view(*self), qs@),
    {
        let mut j: usize = 0;
        while j < qs.len()
            invariant
                j <= qs@.len(),
                forall|i: int| 0 <= i < j ==> self.qubits@.contains(#[trigger] qs@[i]),
            decreases qs@.len() - j,
        {
            if !holds(&self.qubits, qs[j]) {
                return false;
            }
            j += 1;
        }
        true
    }

    /// This bin holds or is blocked on one of the qubits `selq`.
    fn overlaps(&self, selq: &Vec<usize>) -> (r: bool)
        requires
            forall|j: int| 0 <= j < selq@.len() ==> (#[trigger] selq@[j]) < self.blocked@.len(),
        ensures
            r == overlaps(bin_view(*self), selq@),
    {
        let mut j: usize = 0;
        while j < selq.len()
            invariant
                j <= selq@.len(),
                forall|i: int| 0 <= i < selq@.len() ==> (#[trigger] selq@[i]) < self.blocked@.len(),
                forall|i: int| 0 <= i < j ==> !(self.blocked@[#[trigger] selq@[i] as int] || self.qubits@.contains(selq@[i])),
            decreases selq@.len() - j,
        {
            if self.blocked[selq[j]] || holds(&self.qubits, selq[j]) {
                proof {
                    let b = bin_view(*self);
                    assert(b.blocked[selq@[j as int] as int] || b.qubits.contains(selq@[j as int]));
                }
                return true;
            }
            j += 1;
        }
        false
    }

    /// Blocks this bin also on the qubits `selq` and on those `selb` flags.
    fn block_more(&mut self, selq: &Vec<usize>, selb: &Vec<bool>)
        requires
            selb@.len() == old(self).blocked@.len(),
        ensures
            bin_view(*final(self)) == block_more(bin_view(*old(self)), selq@, selb@),
    {
        let ghost b = bin_view(*self);
        let mut blocked: Vec<bool> = Vec::new();
        let mut q: usize = 0;
        while q < self.blocked.len()
            invariant
                q <= self.blocked@.len(),
                b == bin_view(*self),
                selb@.len() == self.blocked@.len(),
                blocked@ == Seq::new(q as nat, |x: int| b.blocked[x] || selq@.contains(x as usize) || selb@[x]),
            decreases self.blocked@.len() - q,
        {
            let v = self.blocked[q] || holds(selq, q) || selb[q];
            blocked.push(v);
            assert(blocked@ =~= Seq::new((q + 1) as nat, |x: int| b.blocked[x] || selq@.contains(x as usize) || selb@[x]));
            q += 1;
        }
        self.blocked = blocked;
        assert(bin_view(*self) =~= block_more(b, selq@, selb@));
    }
}

impl PartState {
    /// Finds the bin of operation `i` on `qs` at layer `c`, as `op_step` describes.
    fn place_op(&mut self, qs: &Vec<usize>, i: usize, c: usize, block_size: usize, n: usize)
        requires
            state_ok(state_view(*old(self)), n as nat),
            forall|j: int| 0 <= j < qs@.len() ==> (#[trigger] qs@[j]) < n,
        ensures
            state_view(*final(self)) == op_step(state_view(*old(self)), qs@, i, c, block_size, n as nat),
            state_ok(state_view(*final(self)), n as nat),
    {
        let ghost st0 = state_view(*self);
        let ghost nn = n as nat;
        // the open bins of the operation's qubits
        let mut ov: Vec<usize> = Vec::new();
        let mut j: usize = 0;
        while j < qs.len()
            invariant
                j <= qs@.len(),
                st0 == state_view(*self),
                state_ok(st0, nn),
                nn == n as nat,
                forall|x: int| 0 <= x < qs@.len() ==> (#[trigger] qs@[x]) < n,
                ov@ == sorted_set(open_bins_of(st0.active_bin_of, qs@, j as int)),
            decreases qs@.len() - j,
        {
            let ghost prev = open_bins_of(st0.active_bin_of, qs@, j as int);
            assert(qs@[j as int] < n);
            assert(self.active_bin_of@.len() == n);
            match self.active_bin_of[qs[j]] {
                Some(b) => {
                    insert_sorted_exec(&mut ov, b);
                    assert(prev.push(b).drop_last() =~= prev);
                },
                None => {},
            }
            j += 1;
        }
        proof {
            lemma_open_bins_of_range(st0, qs@, qs@.len() as int, nn);
            lemma_sorted_set_members(open_bins_of(st0.active_bin_of, qs@, qs@.len() as int), st0.bins.len());
        }
        // those that can take it
        let mut adm: Vec<usize> = Vec::new();
        let mut j: usize = 0;
        while j < ov.len()
            invariant
                j <= ov@.len(),
                st0 == state_view(*self),
                state_ok(st0, nn),
                nn == n as nat,
                forall|x: int| 0 <= x < qs@.len() ==> (#[trigger] qs@[x]) < n,
                forall|x: int| 0 <= x < ov@.len() ==> (#[trigger] ov@[x]) < st0.bins.len(),
                adm@ == admissible_upto(st0.bins, ov@, qs@, block_size, j as int),
            decreases ov@.len() - j,
        {
            let b = &self.bins[ov[j]];
            proof {
                assert(st0.bins[ov@[j as int] as int] == bin_view(*b));
                assert(bin_shaped(bin_view(*b), nn));
                assert(b.blocked@.len() == n);
                assert forall|x: int| 0 <= x < qs@.len() implies (#[trigger] qs@[x]) < b.blocked@.len() by {
                    assert(qs@[x] < n);
                }
            }
            if b.can_accommodate(qs, block_size) {
                adm.push(ov[j]);
            }
            j += 1;
        }
        proof { lemma_admissible_members(st0.bins, ov@, qs@, block_size, ov@.len() as int); }
        // the open bins that cannot take it close those qubits
        let mut j: usize = 0;
        while j < ov.len()
            invariant
                j <= ov@.len(),
                state_ok(st0, nn),
                nn == n as nat,
                forall|x: int| 0 <= x < qs@.len() ==> (#[trigger] qs@[x]) < n,
                forall|x: int| 0 <= x < ov@.len() ==> (#[trigger] ov@[x]) < st0.bins.len(),
                state_view(*self) == close_rejected(st0, ov@, adm@, qs@, c, j as int),
                state_ok(state_view(*self), nn),
                self.bins@.len() == st0.bins.len(),
            decreases ov@.len() - j,
        {
            if !holds(&adm, ov[j]) {
                self.close_in(ov[j], qs, c, n);
            }
            proof { lemma_close_rejected_ok(st0, ov@, adm@, qs@, c, j as int + 1, nn); }
            j += 1;
        }
        let ghost s1 = state_view(*self);
        proof {
            assert forall|x: int| 0 <= x < adm@.len() implies (#[trigger] adm@[x]) < s1.bins.len() by {
                assert(adm@.contains(adm@[x]));
                assert(ov@.contains(adm@[x]));
                let y = choose|y: int| 0 <= y < ov@.len() && ov@[y] == adm@[x];
                assert(ov@[y] < st0.bins.len());
            }
        }
        // the selected bin
        let sel: usize;
        if adm.len() == 0 {
            sel = self.bins.len();
            let nb = Bin::new(n);
            self.bins.push(nb);
            proof {
                let s2 = state_view(*self);
                assert(s2.bins =~= s1.bins.push(empty_bin(nn)));
                assert forall|b: int| 0 <= b < s2.bins.len() implies bin_shaped(#[trigger] s2.bins[b], nn) by {
                    if b < s1.bins.len() { assert(s2.bins[b] == s1.bins[b]); }
                }
                assert forall|b: int, q: int| 0 <= b < s2.bins.len() && 0 <= q < s2.bins[b].qubits.len()
                    implies (#[trigger] s2.bins[b].qubits[q]) < nn by {
                    if b < s1.bins.len() { assert(s2.bins[b] == s1.bins[b]); }
                }
            }
        } else {
            let mut f: usize = 0;
            while f < adm.len() && !self.bins[adm[f]].covers(qs)
                invariant
                    f <= adm@.len(),
                    s1 == state_view(*self),
                    forall|x: int| 0 <= x < adm@.len() ==> (#[trigger] adm@[x]) < s1.bins.len(),
                    first_covering(s1.bins, adm@, qs@, f as int) == first_covering(s1.bins, adm@, qs@, 0),
                decreases adm@.len() - f,
            {
                proof { assert(s1.bins[adm@[f as int] as int] == bin_view(self.bins@[adm@[f as int] as int])); }
                f += 1;
            }
            proof {
                if f < adm.len() {
                    assert(s1.bins[adm@[f as int] as int] == bin_view(self.bins@[adm@[f as int] as int]));
                }
            }
            sel = if f < adm.len() { adm[f] } else { adm[0] };
        }
        let ghost s2 = state_view(*self);
        proof {
            assert(sel == selected_bin(s1.bins, adm@, qs@));
            assert(s2 == (if adm@.len() == 0 { PartModel { bins: s1.bins.push(empty_bin(nn)), ..s1 } } else { s1 }));
            assert forall|x: int| 0 <= x < adm@.len() implies (#[trigger] adm@[x]) < s2.bins.len() by {
                assert(adm@.contains(adm@[x]));
                assert(ov@.contains(adm@[x]));
            }
        }
        // the other admissible bins close those qubits
        let mut j: usize = 0;
        while j < adm.len()
            invariant
                j <= adm@.len(),
                state_ok(s2, nn),
                nn == n as nat,
                forall|x: int| 0 <= x < qs@.len() ==> (#[trigger] qs@[x]) < n,
                forall|x: int| 0 <= x < adm@.len() ==> (#[trigger] adm@[x]) < s2.bins.len(),
                state_view(*self) == close_others(s2, adm@, sel, qs@, c, j as int),
                state_ok(state_view(*self), nn),
                self.bins@.len() == s2.bins.len(),
            decreases adm@.len() - j,
        {
            if adm[j] != sel {
                self.close_in(adm[j], qs, c, n);
            }
            proof { lemma_close_others_ok(s2, adm@, sel, qs@, c, j as int + 1, nn); }
            j += 1;
        }
        let ghost s3 = state_view(*self);
        // the selected bin takes the operation and holds its qubits open
        assert(sel < self.bins.len());
        let mut b = self.take_bin(sel, n);
        assert(bin_shaped(bin_view(b), nn));
        b.add_op(qs, i, c);
        self.put_bin(sel, b);
        let mut j: usize = 0;
        while j < qs.len()
            invariant
                j <= qs@.len(),
                forall|x: int| 0 <= x < qs@.len() ==> (#[trigger] qs@[x]) < n,
                self.active_bin_of@.len() == n,
                s3.active_bin_of.len() == n,
                forall|x: int| 0 <= x < n ==> #[trigger] self.active_bin_of@[x]
                    == (if qs@.take(j as int).contains(x as usize) { Some(sel) } else { s3.active_bin_of[x] }),
                state_view(*self).bins == with_op(s3, sel, qs@, i, c).bins,
                self.pending@ == s3.pending,
                self.dividing_line@ == s3.dividing_line,
                state_view(*self).placed == s3.placed,
                self.rear_of@ == s3.rear_of,
            decreases qs@.len() - j,
        {
            self.active_bin_of.set(qs[j], Some(sel));
            proof {
                assert forall|x: int| 0 <= x < n implies #[trigger] self.active_bin_of@[x]
                    == (if qs@.take(j as int + 1).contains(x as usize) { Some(sel) } else { s3.active_bin_of[x] }) by {
                    assert(qs@.take(j as int + 1).contains(x as usize) == (qs@.take(j as int).contains(x as usize) || qs@[j as int] == x as usize)) by {
                        if qs@.take(j as int + 1).contains(x as usize) {
                            let k = choose|k: int| 0 <= k < j + 1 && #[trigger] qs@.take(j as int + 1)[k] == x as usize;
                            if k < j { assert(qs@.take(j as int)[k] == x as usize); }
                        }
                        if qs@.take(j as int).contains(x as usize) {
                            let k = choose|k: int| 0 <= k < j && #[trigger] qs@.take(j as int)[k] == x as usize;
                            assert(qs@.take(j as int + 1)[k] == x as usize);
                        }
                        if qs@[j as int] == x as usize { assert(qs@.take(j as int + 1)[j as int] == x as usize); }
                    }
                }
            }
            j += 1;
        }
        assert(qs@.take(qs@.len() as int) =~= qs@);
        assert(self.active_bin_of@ =~= with_op(s3, sel, qs@, i, c).active_bin_of);
        let ghost s4 = state_view(*self);
        assert(s4 == with_op(s3, sel, qs@, i, c));
        proof { lemma_with_op_ok(s3, sel, qs@, i, c, nn); }
        // the open bins that share history with the selected one are blocked from its qubits
        let selq = copy_usizes(&self.bins[sel].qubits);
        let selb = copy_bools(&self.bins[sel].blocked);
        proof {
            assert(s4.bins[sel as int] == bin_view(self.bins@[sel as int]));
            assert(selq@ == s4.bins[sel as int].qubits);
            assert(selb@ == s4.bins[sel as int].blocked);
            assert(bin_shaped(s4.bins[sel as int], nn));
            assert forall|x: int| 0 <= x < selq@.len() implies (#[trigger] selq@[x]) < n by {
                assert(s4.bins[sel as int].qubits[x] < nn);
            }
        }
        let mut others: Vec<usize> = Vec::new();
        let mut q: usize = 0;
        while q < n
            invariant
                q <= n,
                s4 == state_view(*self),
                state_ok(s4, nn),
                nn == n as nat,
                others@ == sorted_set(open_bins(s4.active_bin_of, q as int)),
            decreases n - q,
        {
            let ghost prev = open_bins(s4.active_bin_of, q as int);
            assert(self.active_bin_of@.len() == n);
            match self.active_bin_of[q] {
                Some(b) => {
                    insert_sorted_exec(&mut others, b);
                    assert(prev.push(b).drop_last() =~= prev);
                },
                None => {},
            }
            q += 1;
        }
        proof {
            lemma_open_bins_range(s4, nn as int, nn);
            lemma_sorted_set_members(open_bins(s4.active_bin_of, nn as int), s4.bins.len());
        }
        let mut j: usize = 0;
        while j < others.len()
            invariant
                j <= others@.len(),
                state_ok(s4, nn),
                nn == n as nat,
                sel < s4.bins.len(),
                selq@ == s4.bins[sel as int].qubits,
                selb@ == s4.bins[sel as int].blocked,
                selb@.len() == n,
                forall|x: int| 0 <= x < selq@.len() ==> (#[trigger] selq@[x]) < n,
                forall|x: int| 0 <= x < others@.len() ==> (#[trigger] others@[x]) < s4.bins.len(),
                state_view(*self) == propagate(s4, sel, selq@, selb@, others@, j as int),
                state_ok(state_view(*self), nn),
                self.bins@.len() == s4.bins.len(),
            decreases others@.len() - j,
        {
            let idx = others[j];
            let ghost sj = state_view(*self);
            if idx != sel {
                let mut b = self.take_bin(idx, n);
                proof {
                    assert(bin_view(b) == sj.bins[idx as int]);
                    assert(bin_shaped(bin_view(b), nn));
                    assert(b.blocked@.len() == n);
                }
                let hit = b.overlaps(&selq);
                if hit {
                    b.block_more(&selq, &selb);
                }
                let ghost bv = bin_view(b);
                self.put_bin(idx, b);
                proof {
                    assert(state_view(*self).bins =~= sj.bins.update(idx as int, bv));
                    if !hit {
                        assert(sj.bins.update(idx as int, bv) =~= sj.bins);
                    }
                    assert(state_view(*self) == propagate(s4, sel, selq@, selb@, others@, j as int + 1));
                }
            }
            proof { lemma_propagate_ok(s4, sel, selq@, selb@, others@, j as int + 1, nn); }
            j += 1;
        }
    }
}

/// Bin `b` may be placed: each of its qubits joined it at the layer from
/// which the next block on that qubit starts.
pub open spec fn bin_ready(b: BinModel, dl: Seq<usize>) -> bool {
    forall|j: int| 0 <= j < b.qubits.len() ==> dl[#[trigger] b.qubits[j] as int] == b.starts[j]
}

/// The first position from `i` on of a pending bin that may be placed.
pub open spec fn ready_from(bins: Seq<BinModel>, pending: Seq<usize>, dl: Seq<usize>, i: int) -> int
    decreases pending.len() - i,
{
    if i >= pending.len() || i < 0 {
        pending.len() as int
    } else if bin_ready(bins[pending[i] as int], dl) {
        i
    } else {
        ready_from(bins, pending, dl, i + 1)
    }
}

/// The last placed blocks on the first `m` qubits of `qset`, in qubit order.
pub open spec fn rear_cands(rear_of: Seq<Option<usize>>, qset: Seq<usize>, m: int) -> Seq<usize>
    decreases m,
{
    if m <= 0 {
        Seq::empty()
    } else {
        let prev = rear_cands(rear_of, qset, m - 1);
        match rear_of[qset[m - 1] as int] {
            Some(c) => prev.push(c),
            None => prev,
        }
    }
}

/// Every value of `a` occurs in `b`.
pub open spec fn subset_of(a: Seq<usize>, b: Seq<usize>) -> bool {
    forall|j: int| 0 <= j < a.len() ==> b.contains(#[trigger] a[j])
}

/// Block `c` is the last placed block on each of the qubits `qs`.
pub open spec fn is_rear(rear_of: Seq<Option<usize>>, qs: Seq<usize>, c: usize) -> bool {
    forall|j: int| 0 <= j < qs.len() ==> rear_of[#[trigger] qs[j] as int] == Some(c)
}

/// Placed block `c` can absorb, or be absorbed by, a block on `qset`: it is
/// still there, it is the last block on each of its qubits, and one of the
/// two qubit sets contains the other.
pub open spec fn can_merge(placed: Seq<Option<PlacedModel>>, rear_of: Seq<Option<usize>>, c: usize, qset: Seq<usize>) -> bool {
    &&& c < placed.len()
    &&& placed[c as int] is Some
    &&& is_rear(rear_of, placed[c as int]->0.qubits, c)
    &&& (subset_of(placed[c as int]->0.qubits, qset) || subset_of(qset, placed[c as int]->0.qubits))
}

/// The first position from `i` on of a candidate that can merge.
pub open spec fn merge_pick(placed: Seq<Option<PlacedModel>>, rear_of: Seq<Option<usize>>, cands: Seq<usize>, qset: Seq<usize>, i: int) -> int
    decreases cands.len() - i,
{
    if i >= cands.len() || i < 0 {
        cands.len() as int
    } else if can_merge(placed, rear_of, cands[i], qset) {
        i
    } else {
        merge_pick(placed, rear_of, cands, qset, i + 1)
    }
}

/// How many placed blocks are still there.
pub open spec fn some_count(placed: Seq<Option<PlacedModel>>) -> nat
    decreases placed.len(),
{
    if placed.len() == 0 { 0 } else { some_count(placed.drop_last()) + (if placed.last() is Some { 1nat } else { 0nat }) }
}

/// Emptying a placed block lowers the count of blocks still there by one.
pub proof fn lemma_some_count_take(placed: Seq<Option<PlacedModel>>, c: int)
    requires
        0 <= c < placed.len(),
        placed[c] is Some,
    ensures
        some_count(placed.update(c, None)) + 1 == some_count(placed),
    decreases placed.len(),
{
    let r = placed.update(c, None);
    if c == placed.len() - 1 {
        assert(r.drop_last() =~= placed.drop_last());
    } else {
        lemma_some_count_take(placed.drop_last(), c);
        assert(r.drop_last() =~= placed.drop_last().update(c, None));
    }
}

/// The operations, qubits and placed blocks once the block being placed
/// (with operations `ops` on `qset`) has absorbed, one after another, every
/// last block it can merge with: the earlier block's operations come first,
/// and the larger qubit set is kept.
pub open spec fn merge_blocks(placed: Seq<Option<PlacedModel>>, rear_of: Seq<Option<usize>>, ops: Seq<usize>, qset: Seq<usize>)
    -> (Seq<usize>, Seq<usize>, Seq<Option<PlacedModel>>)
    decreases some_count(placed),
{
    let cands = sorted_set(rear_cands(rear_of, qset, qset.len() as int));
    let k = merge_pick(placed, rear_of, cands, qset, 0);
    if 0 <= k < cands.len() && can_merge(placed, rear_of, cands[k], qset) {
        let c = cands[k];
        let cand = placed[c as int]->0;
        proof { lemma_some_count_take(placed, c as int); }
        merge_blocks(placed.update(c as int, None), rear_of, cand.ops + ops,
            if subset_of(cand.qubits, qset) { qset } else { cand.qubits })
    } else {
        (ops, qset, placed)
    }
}

/// The dividing lines once each of the first `m` qubits of a placed bin has
/// its next block start one layer after the bin closed it.
pub open spec fn set_lines(dl: Seq<usize>, qubits: Seq<usize>, ends: Seq<Option<usize>>, m: int) -> Seq<usize>
    decreases m,
{
    if m <= 0 {
        dl
    } else {
        let prev = set_lines(dl, qubits, ends, m - 1);
        let v: usize = match ends[m - 1] {
            Some(e) => if e < usize::MAX { (e + 1) as usize } else { usize::MAX },
            None => usize::MAX,
        };
        prev.update(qubits[m - 1] as int, v)
    }
}

/// The state once the pending bin at position `p` is placed: it leaves the
/// pending list and is emptied, merges with the last blocks it can, is
/// placed on its sorted qubits, becomes the last block on them, and the
/// next block on each of its qubits starts one layer after it closed it.
pub open spec fn place_one(st: PartModel, p: int) -> PartModel {
    let idx = st.pending[p];
    let b = st.bins[idx as int];
    let m = merge_blocks(st.placed, st.rear_of, b.ops, b.qubits);
    let qs3 = sorted_set(m.1);
    let new_idx = m.2.len() as usize;
    PartModel {
        bins: st.bins.update(idx as int, BinModel {
            qubits: Seq::empty(), active: Seq::empty(), starts: Seq::empty(), ends: Seq::empty(), ops: Seq::empty(), ..b }),
        pending: st.pending.remove(p),
        placed: m.2.push(Some(PlacedModel { qubits: qs3, ops: m.0 })),
        rear_of: Seq::new(st.rear_of.len(), |q: int| if qs3.contains(q as usize) { Some(new_idx) } else { st.rear_of[q] }),
        dividing_line: set_lines(st.dividing_line, b.qubits, b.ends, b.qubits.len() as int),
        active_bin_of: st.active_bin_of,
    }
}

/// The state once pending bins are placed, first ready one first, until
/// none is ready.
pub open spec fn flush(st: PartModel) -> PartModel
    decreases st.pending.len(),
{
    let p = ready_from(st.bins, st.pending, st.dividing_line, 0);
    if 0 <= p < st.pending.len() { flush(place_one(st, p)) } else { st }
}

/// Every placed block still there names qubits below `n`.
pub open spec fn placed_below(placed: Seq<Option<PlacedModel>>, n: nat) -> bool {
    forall|c: int, j: int| 0 <= c < placed.len() && placed[c] is Some && 0 <= j < placed[c]->0.qubits.len()
        ==> (#[trigger] placed[c]->0.qubits[j]) < n
}

proof fn lemma_merge_ok(placed: Seq<Option<PlacedModel>>, rear_of: Seq<Option<usize>>, ops: Seq<usize>, qset: Seq<usize>, n: nat)
    requires
        placed_below(placed, n),
        forall|j: int| 0 <= j < qset.len() ==> (#[trigger] qset[j]) < n,
    ensures
        placed_below(merge_blocks(placed, rear_of, ops, qset).2, n),
        merge_blocks(placed, rear_of, ops, qset).2.len() == placed.len(),
        forall|j: int| 0 <= j < merge_blocks(placed, rear_of, ops, qset).1.len() ==> (#[trigger] merge_blocks(placed, rear_of, ops, qset).1[j]) < n,
    decreases some_count(placed),
{
    let cands = sorted_set(rear_cands(rear_of, qset, qset.len() as int));
    let k = merge_pick(placed, rear_of, cands, qset, 0);
    if 0 <= k < cands.len() && can_merge(placed, rear_of, cands[k], qset) {
        let c = cands[k];
        let cand = placed[c as int]->0;
        lemma_some_count_take(placed, c as int);
        let p2 = placed.update(c as int, None);
        assert(placed_below(p2, n)) by {
            assert forall|x: int, j: int| 0 <= x < p2.len() && p2[x] is Some && 0 <= j < p2[x]->0.qubits.len()
                implies (#[trigger] p2[x]->0.qubits[j]) < n by {
                assert(p2[x] == placed[x]);
            }
        }
        let q2 = if subset_of(cand.qubits, qset) { qset } else { cand.qubits };
        assert forall|j: int| 0 <= j < q2.len() implies (#[trigger] q2[j]) < n by {
            if !subset_of(cand.qubits, qset) { assert(placed[c as int]->0.qubits[j] < n); }
        }
        lemma_merge_ok(p2, rear_of, cand.ops + ops, q2, n);
    }
}

proof fn lemma_set_lines_len(dl: Seq<usize>, qubits: Seq<usize>, ends: Seq<Option<usize>>, m: int, n: nat)
    requires
        dl.len() == n,
        0 <= m <= qubits.len(),
        forall|j: int| 0 <= j < qubits.len() ==> (#[trigger] qubits[j]) < n,
    ensures
        set_lines(dl, qubits, ends, m).len() == n,
    decreases m,
{
    if m > 0 {
        lemma_set_lines_len(dl, qubits, ends, m - 1, n);
        assert(qubits[m - 1] < n);
    }
}

proof fn lemma_place_one_ok(st: PartModel, p: int, n: nat)
    requires
        state_ok(st, n),
        0 <= p < st.pending.len(),
    ensures
        state_ok(place_one(st, p), n),
        place_one(st, p).bins.len() == st.bins.len(),
{
    let idx = st.pending[p];
    let b = st.bins[idx as int];
    assert(idx < st.bins.len());
    assert(bin_shaped(b, n));
    assert(placed_below(st.placed, n)) by {
        assert forall|c: int, j: int| 0 <= c < st.placed.len() && st.placed[c] is Some && 0 <= j < st.placed[c]->0.qubits.len()
            implies (#[trigger] st.placed[c]->0.qubits[j]) < n by {}
    }
    assert forall|j: int| 0 <= j < b.qubits.len() implies (#[trigger] b.qubits[j]) < n by {
        assert(st.bins[idx as int].qubits[j] < n);
    }
    lemma_merge_ok(st.placed, st.rear_of, b.ops, b.qubits, n);
    let m = merge_blocks(st.placed, st.rear_of, b.ops, b.qubits);
    lemma_sorted_set_members(m.1, n);
    lemma_set_lines_len(st.dividing_line, b.qubits, b.ends, b.qubits.len() as int, n);
    let r = place_one(st, p);
    assert forall|x: int| 0 <= x < r.bins.len() implies bin_shaped(#[trigger] r.bins[x], n) by {
        if x != idx { assert(r.bins[x] == st.bins[x]); }
    }
    assert forall|x: int, j: int| 0 <= x < r.bins.len() && 0 <= j < r.bins[x].qubits.len() implies (#[trigger] r.bins[x].qubits[j]) < n by {
        if x != idx { assert(r.bins[x] == st.bins[x]); }
    }
    assert forall|i: int| 0 <= i < r.pending.len() implies (#[trigger] r.pending[i]) < r.bins.len() by {
        if i < p { assert(r.pending[i] == st.pending[i]); } else { assert(r.pending[i] == st.pending[i + 1]); }
    }
    assert forall|c: int, j: int| 0 <= c < r.placed.len() && r.placed[c] is Some && 0 <= j < r.placed[c]->0.qubits.len()
        implies (#[trigger] r.placed[c]->0.qubits[j]) < n by {
        if c < m.2.len() { assert(r.placed[c] == m.2[c]); }
    }
}

impl Bin {
    /// This bin may be placed, as `bin_ready` describes.
    fn ready(&self, dl: &Vec<usize>) -> (r: bool)
        requires
            self.starts@.len() == self.qubits@.len(),
            forall|j: int| 0 <= j < self.qubits@.len() ==> (#[trigger] self.qubits@[j]) < dl@.len(),
        ensures
            r == bin_ready(bin_view(*self), dl@),
    {
        let mut j: usize = 0;
        while j < self.qubits.len()
            invariant
                j <= self.qubits@.len(),
                self.starts@.len() == self.qubits@.len(),
                forall|i: int| 0 <= i < self.qubits@.len() ==> (#[trigger] self.qubits@[i]) < dl@.len(),
                forall|i: int| 0 <= i < j ==> dl@[#[trigger] self.qubits@[i] as int] == self.starts@[i],
            decreases self.qubits@.len() - j,
        {
            if dl[self.qubits[j]] != self.starts[j] {
                proof {
                    let b = bin_view(*self);
                    assert(dl@[b.qubits[j as int] as int] != b.starts[j as int]);
                }
                return false;
            }
            j += 1;
        }
        true
    }
}

spec fn placed_seq_view(v: Seq<Option<Placed>>) -> Seq<Option<PlacedModel>> {
    v.map_values(|p: Option<Placed>| placed_view(p))
}

/// `a` followed by `b`.
fn concat_usizes(a: &Vec<usize>, b: &Vec<usize>) -> (r: Vec<usize>)
    ensures
        r@ == a@ + b@,
{
    let mut r = copy_usizes(a);
    let mut i: usize = 0;
    while i < b.len()
        invariant
            i <= b@.len(),
            r@ == a@ + b@.take(i as int),
        decreases b@.len() - i,
    {
        r.push(b[i]);
        assert(r@ =~= a@ + b@.take(i as int + 1));
        i += 1;
    }
    assert(b@.take(b@.len() as int) =~= b@);
    r
}

/// Every value of `a` occurs in `b`.
fn subset_exec(a: &Vec<usize>, b: &Vec<usize>) -> (r: bool)
    ensures
        r == subset_of(a@, b@),
{
    let mut j: usize = 0;
    while j < a.len()
        invariant
            j <= a@.len(),
            forall|i: int| 0 <= i < j ==> b@.contains(#[trigger] a@[i]),
        decreases a@.len() - j,
    {
        if !holds(b, a[j]) {
            return false;
        }
        j += 1;
    }
    true
}

/// Whether placed block `c` can merge with a block on `qset`, as `can_merge` describes.
fn can_merge_exec(placed: &Vec<Option<Placed>>, rear_of: &Vec<Option<usize>>, c: usize, qset: &Vec<usize>) -> (r: bool)
    requires
        placed_below(placed_seq_view(placed@), rear_of@.len()),
    ensures
        r == can_merge(placed_seq_view(placed@), rear_of@, c, qset@),
{
    if c >= placed.len() {
        return false;
    }
    match &placed[c] {
        None => false,
        Some(cand) => {
            proof { assert(placed_seq_view(placed@)[c as int] == placed_view(placed@[c as int])); }
            let mut j: usize = 0;
            while j < cand.qubits.len()
                invariant
                    j <= cand.qubits@.len(),
                    placed_below(placed_seq_view(placed@), rear_of@.len()),
                    c < placed@.len(),
                    placed@[c as int] == Some(*cand),
                    placed_seq_view(placed@)[c as int] == placed_view(placed@[c as int]),
                    forall|i: int| 0 <= i < j ==> rear_of@[#[trigger] cand.qubits@[i] as int] == Some(c),
                decreases cand.qubits@.len() - j,
            {
                proof { assert(placed_seq_view(placed@)[c as int]->0.qubits[j as int] < rear_of@.len()); }
                if rear_of[cand.qubits[j]] != Some(c) {
                    return false;
                }
                j += 1;
            }
            subset_exec(&cand.qubits, qset) || subset_exec(qset, &cand.qubits)
        },
    }
}

/// The block being placed, with operations `ops` on `qset`, absorbs the last
/// blocks it can merge with, as `merge_blocks` describes.
fn merge_exec(placed: &mut Vec<Option<Placed>>, rear_of: &Vec<Option<usize>>, ops: Vec<usize>, qset: Vec<usize>) -> (r: (Vec<usize>, Vec<usize>))
    requires
        placed_below(placed_seq_view(old(placed)@), rear_of@.len()),
        forall|j: int| 0 <= j < qset@.len() ==> (#[trigger] qset@[j]) < rear_of@.len(),
    ensures
        (r.0@, r.1@, placed_seq_view(final(placed)@)) == merge_blocks(placed_seq_view(old(placed)@), rear_of@, ops@, qset@),
{
    let ghost n = rear_of@.len();
    let ghost target = merge_blocks(placed_seq_view(placed@), rear_of@, ops@, qset@);
    let mut ops = ops;
    let mut qset = qset;
    loop
        invariant
            placed_below(placed_seq_view(placed@), n),
            n == rear_of@.len(),
            forall|j: int| 0 <= j < qset@.len() ==> (#[trigger] qset@[j]) < n,
            merge_blocks(placed_seq_view(placed@), rear_of@, ops@, qset@) == target,
        ensures
            (ops@, qset@, placed_seq_view(placed@)) == target,
        decreases some_count(placed_seq_view(placed@)),
    {
        let ghost pv = placed_seq_view(placed@);
        let mut cands: Vec<usize> = Vec::new();
        let mut j: usize = 0;
        while j < qset.len()
            invariant
                j <= qset@.len(),
                n == rear_of@.len(),
                forall|x: int| 0 <= x < qset@.len() ==> (#[trigger] qset@[x]) < n,
                cands@ == sorted_set(rear_cands(rear_of@, qset@, j as int)),
            decreases qset@.len() - j,
        {
            let ghost prev = rear_cands(rear_of@, qset@, j as int);
            match rear_of[qset[j]] {
                Some(c) => {
                    insert_sorted_exec(&mut cands, c);
                    assert(prev.push(c).drop_last() =~= prev);
                },
                None => {},
            }
            j += 1;
        }
        let mut k: usize = 0;
        while k < cands.len() && !can_merge_exec(placed, rear_of, cands[k], &qset)
            invariant
                k <= cands@.len(),
                pv == placed_seq_view(placed@),
                placed_below(pv, n),
                n == rear_of@.len(),
                merge_pick(pv, rear_of@, cands@, qset@, k as int) == merge_pick(pv, rear_of@, cands@, qset@, 0),
            decreases cands@.len() - k,
        {
            k += 1;
        }
        if k >= cands.len() {
            break;
        }
        let c = cands[k];
        proof {
            assert(can_merge(pv, rear_of@, c, qset@));
            assert(pv[c as int] == placed_view(placed@[c as int]));
            lemma_some_count_take(pv, c as int);
        }
        let mut taken: Option<Placed> = None;
        placed.set_and_swap(c, &mut taken);
        proof {
            assert(placed_seq_view(placed@) =~= pv.update(c as int, None));
        }
        match taken {
            Some(cand) => {
                let keep = subset_exec(&cand.qubits, &qset);
                ops = concat_usizes(&cand.ops, &ops);
                if !keep {
                    proof {
                        assert forall|j: int| 0 <= j < cand.qubits@.len() implies (#[trigger] cand.qubits@[j]) < n by {
                            assert(pv[c as int]->0.qubits[j] < n);
                        }
                    }
                    qset = cand.qubits;
                }
            },
            None => {},
        }
        proof {
            let p2 = placed_seq_view(placed@);
            assert forall|x: int, j: int| 0 <= x < p2.len() && p2[x] is Some && 0 <= j < p2[x]->0.qubits.len()
                implies (#[trigger] p2[x]->0.qubits[j]) < n by {
                assert(p2[x] == pv[x]);
            }
        }
    }
    (ops, qset)
}

impl PartState {
    /// Places the pending bin at position `p`, as `place_one` describes.
    fn place_one(&mut self, p: usize, n: usize)
        requires
            state_ok(state_view(*old(self)), n as nat),
            p < old(self).pending@.len(),
        ensures
            state_view(*final(self)) == place_one(state_view(*old(self)), p as int),
    {
        let ghost st = state_view(*self);
        let ghost nn = n as nat;
        let ghost b0 = st.bins[st.pending[p as int] as int];
        let idx = self.pending.remove(p);
        assert(idx < self.bins@.len());
        let b = self.take_bin(idx, n);
        assert(bin_view(b) == b0);
        proof {
            assert(bin_shaped(b0, nn));
            assert forall|j: int| 0 <= j < b0.qubits.len() implies (#[trigger] b0.qubits[j]) < nn by {
                assert(st.bins[st.pending[p as int] as int].qubits[j] < nn);
            }
            assert(placed_below(st.placed, nn)) by {
                assert forall|c: int, j: int| 0 <= c < st.placed.len() && st.placed[c] is Some && 0 <= j < st.placed[c]->0.qubits.len()
                    implies (#[trigger] st.placed[c]->0.qubits[j]) < nn by {}
            }
        }
        let Bin { qubits, active: _, starts: _, ends, blocked, ops } = b;
        let emptied = Bin { qubits: Vec::new(), active: Vec::new(), starts: Vec::new(), ends: Vec::new(), blocked, ops: Vec::new() };
        self.put_bin(idx, emptied);
        let qcopy = copy_usizes(&qubits);
        let ghost m = merge_blocks(st.placed, st.rear_of, b0.ops, b0.qubits);
        proof { lemma_merge_ok(st.placed, st.rear_of, b0.ops, b0.qubits, nn); }
        let (mops, mq) = merge_exec(&mut self.placed, &self.rear_of, ops, qubits);
        assert(mops@ == m.0 && mq@ == m.1 && placed_seq_view(self.placed@) == m.2);
        let mut qs3: Vec<usize> = Vec::new();
        let mut j: usize = 0;
        while j < mq.len()
            invariant
                j <= mq@.len(),
                qs3@ == sorted_set(mq@.take(j as int)),
            decreases mq@.len() - j,
        {
            insert_sorted_exec(&mut qs3, mq[j]);
            assert(mq@.take(j as int + 1).drop_last() =~= mq@.take(j as int));
            j += 1;
        }
        assert(mq@.take(mq@.len() as int) =~= mq@);
        proof { lemma_sorted_set_members(m.1, nn); }
        let new_idx = self.placed.len();
        let ghost snap1 = *self;
        let mut j: usize = 0;
        while j < qs3.len()
            invariant
                j <= qs3@.len(),
                self.bins == snap1.bins,
                self.pending == snap1.pending,
                self.placed == snap1.placed,
                self.active_bin_of == snap1.active_bin_of,
                self.dividing_line == snap1.dividing_line,
                qs3@ == sorted_set(m.1),
                forall|x: int| 0 <= x < qs3@.len() ==> (#[trigger] qs3@[x]) < nn,
                nn == n as nat,
                self.rear_of@.len() == n,
                st.rear_of.len() == n,
                forall|x: int| 0 <= x < n ==> #[trigger] self.rear_of@[x]
                    == (if qs3@.take(j as int).contains(x as usize) { Some(new_idx) } else { st.rear_of[x] }),
            decreases qs3@.len() - j,
        {
            self.rear_of.set(qs3[j], Some(new_idx));
            proof {
                assert forall|x: int| 0 <= x < n implies #[trigger] self.rear_of@[x]
                    == (if qs3@.take(j as int + 1).contains(x as usize) { Some(new_idx) } else { st.rear_of[x] }) by {
                    assert(qs3@.take(j as int + 1).contains(x as usize) == (qs3@.take(j as int).contains(x as usize) || qs3@[j as int] == x as usize)) by {
                        if qs3@.take(j as int + 1).contains(x as usize) {
                            let k = choose|k: int| 0 <= k < j + 1 && #[trigger] qs3@.take(j as int + 1)[k] == x as usize;
                            if k < j { assert(qs3@.take(j as int)[k] == x as usize); }
                        }
                        if qs3@.take(j as int).contains(x as usize) {
                            let k = choose|k: int| 0 <= k < j && #[trigger] qs3@.take(j as int)[k] == x as usize;
                            assert(qs3@.take(j as int + 1)[k] == x as usize);
                        }
                        if qs3@[j as int] == x as usize { assert(qs3@.take(j as int + 1)[j as int] == x as usize); }
                    }
                }
            }
            j += 1;
        }
        assert(qs3@.take(qs3@.len() as int) =~= qs3@);
        let ghost rear2 = self.rear_of@;
        self.placed.push(Some(Placed { qubits: qs3, ops: mops }));
        let ghost snap2 = *self;
        let mut j: usize = 0;
        while j < qcopy.len()
            invariant
                j <= qcopy@.len(),
                self.bins == snap2.bins,
                self.pending == snap2.pending,
                self.placed == snap2.placed,
                self.active_bin_of == snap2.active_bin_of,
                self.rear_of == snap2.rear_of,
                qcopy@ == b0.qubits,
                ends@ == b0.ends,
                bin_shaped(b0, nn),
                nn == n as nat,
                forall|x: int| 0 <= x < b0.qubits.len() ==> (#[trigger] b0.qubits[x]) < nn,
                st.dividing_line.len() == n,
                self.dividing_line@ == set_lines(st.dividing_line, b0.qubits, b0.ends, j as int),
                self.dividing_line@.len() == n,
            decreases qcopy@.len() - j,
        {
            let v: usize = match ends[j] {
                Some(e) => if e < usize::MAX { e + 1 } else { usize::MAX },
                None => usize::MAX,
            };
            assert(qcopy@[j as int] < nn);
            self.dividing_line.set(qcopy[j], v);
            j += 1;
        }
        proof {
            let r = place_one(st, p as int);
            let sv = state_view(*self);
            assert(sv.bins =~= r.bins);
            assert(sv.pending =~= r.pending);
            assert(sv.placed =~= r.placed);
            assert(sv.rear_of =~= r.rear_of);
            assert(sv.dividing_line =~= r.dividing_line);
        }
    }

    /// Places pending bins, first ready one first, until none is ready, as `flush` describes.
    fn flush(&mut self, n: usize)
        requires
            state_ok(state_view(*old(self)), n as nat),
        ensures
            state_view(*final(self)) == flush(state_view(*old(self))),
            state_ok(state_view(*final(self)), n as nat),
    {
        let ghost target = flush(state_view(*self));
        loop
            invariant
                state_ok(state_view(*self), n as nat),
                flush(state_view(*self)) == target,
            ensures
                state_view(*self) == target,
                state_ok(state_view(*self), n as nat),
            decreases self.pending@.len(),
        {
            let ghost st = state_view(*self);
            let mut p: usize = 0;
            while p < self.pending.len() && !self.bins[self.pending[p]].ready(&self.dividing_line)
                invariant
                    p <= self.pending@.len(),
                    st == state_view(*self),
                    state_ok(st, n as nat),
                    ready_from(st.bins, st.pending, st.dividing_line, p as int) == ready_from(st.bins, st.pending, st.dividing_line, 0),
                decreases self.pending@.len() - p,
            {
                proof {
                    let b = st.bins[st.pending[p as int] as int];
                    assert(bin_shaped(b, n as nat));
                    assert(b == bin_view(self.bins@[self.pending@[p as int] as int]));
                    assert forall|j: int| 0 <= j < b.qubits.len() implies (#[trigger] b.qubits[j]) < self.dividing_line@.len() by {
                        assert(st.bins[st.pending[p as int] as int].qubits[j] < n);
                    }
                }
                p += 1;
            }
            proof {
                if p < self.pending.len() {
                    let b = st.bins[st.pending[p as int] as int];
                    assert(b == bin_view(self.bins@[self.pending@[p as int] as int]));
                }
            }
            if p >= self.pending.len() {
                break;
            }
            proof { lemma_place_one_ok(st, p as int, n as nat); }
            self.place_one(p, n);
        }
    }
}

/// The state before the first operation: no bin, no open qubit, nothing
/// pending or placed, and each qubit's first block starting at the layer of
/// its first operation.
pub open spec fn initial_state(first_cycle: Seq<usize>, n: nat) -> PartModel {
    PartModel {
        bins: Seq::empty(),
        active_bin_of: Seq::new(n, |q: int| None::<usize>),
        pending: Seq::empty(),
        dividing_line: first_cycle,
        placed: Seq::empty(),
        rear_of: Seq::new(n, |q: int| None::<usize>),
    }
}

/// The state once the first `k` operations have found their bins, each
/// followed by the placing of the bins ready then.
pub open spec fn run_upto(ops: Seq<Seq<usize>>, n: nat, block_size: usize, k: int) -> PartModel
    decreases k,
{
    let cy = cycles_upto(ops, n, ops.len() as int);
    if k <= 0 {
        initial_state(cy.first_cycle, n)
    } else {
        flush(op_step(run_upto(ops, n, block_size, k - 1), ops[k - 1], (k - 1) as usize, cy.cycles[k - 1], block_size, n))
    }
}

/// The state once each of the first `m` bins of `still` closes all its
/// qubits at layer `c - 1`.
pub open spec fn close_all(st: PartModel, still: Seq<usize>, c: usize, m: int) -> PartModel
    decreases m,
{
    if m <= 0 {
        st
    } else {
        let prev = close_all(st, still, c, m - 1);
        close_in(prev, still[m - 1], prev.bins[still[m - 1] as int].qubits, c)
    }
}

/// The placed blocks among the first `m` that are still there, in order.
pub open spec fn placed_blocks(placed: Seq<Option<PlacedModel>>, m: int) -> Seq<PlacedModel>
    decreases m,
{
    if m <= 0 {
        Seq::empty()
    } else {
        let prev = placed_blocks(placed, m - 1);
        match placed[m - 1] {
            Some(b) => prev.push(b),
            None => prev,
        }
    }
}

/// The partition of the operations `ops` (their qubit lists) on `n` qubits
/// into windows: all operations read in order, then every bin still open
/// closed at the final layer, the bins ready then placed, and the placed
/// blocks listed in order.
pub open spec fn partitioned(ops: Seq<Seq<usize>>, n: nat, block_size: usize) -> Seq<PlacedModel> {
    let fin = final_state(ops, n, block_size);
    placed_blocks(fin.placed, fin.placed.len() as int)
}

/// The partitioner's state at the end: all operations read, every bin still
/// open closed at the final layer, and the bins ready then placed.
pub open spec fn final_state(ops: Seq<Seq<usize>>, n: nat, block_size: usize) -> PartModel {
    let cy = cycles_upto(ops, n, ops.len() as int);
    let st = run_upto(ops, n, block_size, ops.len() as int);
    let fc = max_of(cy.next_cycle, n as int);
    let still = sorted_set(open_bins(st.active_bin_of, n as int));
    flush(close_all(st, still, fc, still.len() as int))
}

proof fn lemma_close_all_ok(st: PartModel, still: Seq<usize>, c: usize, m: int, n: nat)
    requires
        state_ok(st, n),
        0 <= m <= still.len(),
        forall|i: int| 0 <= i < still.len() ==> (#[trigger] still[i]) < st.bins.len(),
    ensures
        state_ok(close_all(st, still, c, m), n),
        close_all(st, still, c, m).bins.len() == st.bins.len(),
    decreases m,
{
    if m > 0 {
        lemma_close_all_ok(st, still, c, m - 1, n);
        let prev = close_all(st, still, c, m - 1);
        lemma_close_in_ok(prev, still[m - 1], prev.bins[still[m - 1] as int].qubits, c, n);
    }
}

/// A window of the partition: its qubits, increasing, and its operations,
/// by index.
#[derive(Debug, Clone, PartialEq, Eq)]
pub struct Window {
    pub qubits: Vec<usize>,
    pub ops: Vec<usize>,
}

/// A window as a value.
pub open spec fn window_view(w: Window) -> PlacedModel {
    PlacedModel { qubits: w.qubits@, ops: w.ops@ }
}

/// Partitions the operations, given by their qubit lists, into windows of at
/// most `block_size` qubits (or of one wider operation), as `partitioned`
/// describes. Each window lists its qubits in increasing order and its
/// operations by index; listing the windows' operations in window order
/// gives the partitioned circuit.
pub fn partition_windows(n_qubits: usize, ops: &Vec<Vec<usize>>, block_size: usize) -> (r: Vec<Window>)
    requires
        qubits_below(qubit_lists(ops@), n_qubits as nat),
    ensures
        r@.map_values(|w: Window| window_view(w)) == partitioned(qubit_lists(ops@), n_qubits as nat, block_size),
{
    let ghost qs = qubit_lists(ops@);
    let ghost nn = n_qubits as nat;
    let n = n_qubits;
    let (cycles, first_cycle, final_cycle) = assign_cycles(n, ops);
    proof { lemma_cycles_bounded(qs, nn, qs.len() as int); }
    let mut abo: Vec<Option<usize>> = Vec::new();
    let mut rear: Vec<Option<usize>> = Vec::new();
    let mut q: usize = 0;
    while q < n
        invariant
            q <= n,
            abo@ == Seq::new(q as nat, |i: int| None::<usize>),
            rear@ == Seq::new(q as nat, |i: int| None::<usize>),
        decreases n - q,
    {
        abo.push(None);
        rear.push(None);
        q += 1;
        assert(abo@ =~= Seq::new(q as nat, |i: int| None::<usize>));
        assert(rear@ =~= Seq::new(q as nat, |i: int| None::<usize>));
    }
    let mut st = PartState {
        bins: Vec::new(),
        active_bin_of: abo,
        pending: Vec::new(),
        dividing_line: first_cycle,
        placed: Vec::new(),
        rear_of: rear,
    };
    proof {
        assert(state_view(st).bins =~= Seq::empty());
        assert(state_view(st).placed =~= Seq::empty());
        assert(state_view(st) == run_upto(qs, nn, block_size, 0));
    }
    let mut k: usize = 0;
    while k < ops.len()
        invariant
            k <= ops@.len(),
            qs == qubit_lists(ops@),
            qs.len() == ops@.len(),
            nn == n as nat,
            qubits_below(qs, nn),
            cycles@ == cycles_upto(qs, nn, qs.len() as int).cycles,
            cycles@.len() == qs.len(),
            state_view(st) == run_upto(qs, nn, block_size, k as int),
            state_ok(state_view(st), nn),
        decreases ops@.len() - k,
    {
        let op = &ops[k];
        proof {
            assert(qs[k as int] == op@);
            assert forall|j: int| 0 <= j < op@.len() implies (#[trigger] op@[j]) < n by {
                assert(qs[k as int][j] < nn);
            }
        }
        st.place_op(op, k, cycles[k], block_size, n);
        st.flush(n);
        k += 1;
    }
    // every bin still open closes all its qubits at the final layer
    let ghost s0 = state_view(st);
    let mut still: Vec<usize> = Vec::new();
    let mut q: usize = 0;
    while q < n
        invariant
            q <= n,
            s0 == state_view(st),
            state_ok(s0, nn),
            nn == n as nat,
            still@ == sorted_set(open_bins(s0.active_bin_of, q as int)),
        decreases n - q,
    {
        let ghost prev = open_bins(s0.active_bin_of, q as int);
        assert(st.active_bin_of@.len() == n);
        match st.active_bin_of[q] {
            Some(b) => {
                insert_sorted_exec(&mut still, b);
                assert(prev.push(b).drop_last() =~= prev);
            },
            None => {},
        }
        q += 1;
    }
    proof {
        lemma_open_bins_range(s0, nn as int, nn);
        lemma_sorted_set_members(open_bins(s0.active_bin_of, nn as int), s0.bins.len());
    }
    let mut j: usize = 0;
    while j < still.len()
        invariant
            j <= still@.len(),
            state_ok(s0, nn),
            nn == n as nat,
            forall|i: int| 0 <= i < still@.len() ==> (#[trigger] still@[i]) < s0.bins.len(),
            state_view(st) == close_all(s0, still@, final_cycle, j as int),
            state_ok(state_view(st), nn),
            st.bins@.len() == s0.bins.len(),
        decreases still@.len() - j,
    {
        let idx = still[j];
        let ghost sj = state_view(st);
        let qubits = copy_usizes(&st.bins[idx].qubits);
        proof {
            assert(sj.bins[idx as int] == bin_view(st.bins@[idx as int]));
            assert forall|x: int| 0 <= x < qubits@.len() implies (#[trigger] qubits@[x]) < n by {
                assert(sj.bins[idx as int].qubits[x] < nn);
            }
        }
        st.close_in(idx, &qubits, final_cycle, n);
        proof { lemma_close_all_ok(s0, still@, final_cycle, j as int + 1, nn); }
        j += 1;
    }
    st.flush(n);
    // the placed blocks still there, in order
    let ghost fin = state_view(st);
    let mut out: Vec<Window> = Vec::new();
    let mut c: usize = 0;
    while c < st.placed.len()
        invariant
            c <= st.placed@.len(),
            fin == state_view(st),
            out@.map_values(|w: Window| window_view(w)) == placed_blocks(fin.placed, c as int),
        decreases st.placed@.len() - c,
    {
        let ghost before = out@;
        match &st.placed[c] {
            Some(b) => {
                out.push(Window { qubits: copy_usizes(&b.qubits), ops: copy_usizes(&b.ops) });
                proof {
                    assert(fin.placed[c as int] == placed_view(st.placed@[c as int]));
                    assert(out@.map_values(|w: Window| window_view(w))
                        =~= before.map_values(|w: Window| window_view(w)).push(fin.placed[c as int]->0));
                }
            },
            None => {
                proof { assert(fin.placed[c as int] == placed_view(st.placed@[c as int])); }
            },
        }
        c += 1;
    }
    out
}

/// The number of qubits of the widest of the first `m` operations.
pub open spec fn widest(ops: Seq<Seq<usize>>, m: int) -> nat
    decreases m,
{
    if m <= 0 { 0 } else if ops[m - 1].len() > widest(ops, m - 1) { ops[m - 1].len() } else { widest(ops, m - 1) }
}

/// The size a window may reach: `block_size`, or the width of the widest operation if larger.
pub open spec fn size_cap(ops: Seq<Seq<usize>>, block_size: usize) -> nat {
    let w = widest(ops, ops.len() as int);
    if block_size > w { block_size as nat } else { w }
}

/// Operation `op` acts only on qubits among `qs`.
pub open spec fn op_within(ops: Seq<Seq<usize>>, op: usize, qs: Seq<usize>) -> bool {
    &&& op < ops.len()
    &&& forall|j: int| 0 <= j < ops[op as int].len() ==> qs.contains(#[trigger] ops[op as int][j])
}

/// Bins hold distinct qubits, no more than `cap`, and operations acting
/// within them; placed blocks hold increasing qubits, no more than `cap`,
/// and operations acting within them.
pub open spec fn part_inv(st: PartModel, ops: Seq<Seq<usize>>, cap: nat) -> bool {
    &&& forall|b: int| 0 <= b < st.bins.len() ==> (#[trigger] st.bins[b]).qubits.no_duplicates()
        && st.bins[b].qubits.len() <= cap
        && forall|j: int| 0 <= j < st.bins[b].ops.len() ==> op_within(ops, #[trigger] st.bins[b].ops[j], st.bins[b].qubits)
    &&& forall|c: int| 0 <= c < st.placed.len() && (#[trigger] st.placed[c]) is Some ==> placed_ok(st.placed[c]->0, ops, cap)
}

/// A placed block holds increasing qubits, no more than `cap`, and operations acting within them.
pub open spec fn placed_ok(p: PlacedModel, ops: Seq<Seq<usize>>, cap: nat) -> bool {
    &&& forall|a: int, b: int| 0 <= a < b < p.qubits.len() ==> p.qubits[a] < p.qubits[b]
    &&& p.qubits.len() <= cap
    &&& forall|j: int| 0 <= j < p.ops.len() ==> op_within(ops, #[trigger] p.ops[j], p.qubits)
}

proof fn lemma_distinct_count_le(s: Seq<usize>)
    ensures
        distinct_count(s) <= s.len(),
    decreases s.len(),
{
    if s.len() > 0 {
        lemma_distinct_count_le(s.drop_last());
    }
}

proof fn lemma_join_qubits_count(b: BinModel, qs: Seq<usize>, c: usize, j: int)
    requires
        b.qubits.no_duplicates(),
        0 <= j <= qs.len(),
    ensures
        join_qubits(b, qs, c, j).qubits.no_duplicates(),
        join_qubits(b, qs, c, j).qubits.len() == distinct_count(b.qubits + qs.take(j)),
        forall|x: usize| #[trigger] join_qubits(b, qs, c, j).qubits.contains(x) <==> (b.qubits + qs.take(j)).contains(x),
        join_qubits(b, qs, c, j).ops == b.ops,
    decreases j,
{
    if j == 0 {
        assert(b.qubits + qs.take(0) =~= b.qubits);
        lemma_distinct_count_of_distinct(b.qubits);
    } else {
        lemma_join_qubits_count(b, qs, c, j - 1);
        let prev = join_qubits(b, qs, c, j - 1);
        let r = join_qubits(b, qs, c, j);
        let all = b.qubits + qs.take(j);
        let allp = b.qubits + qs.take(j - 1);
        assert(all.drop_last() =~= allp);
        assert(all.last() == qs[j - 1]);
        if !prev.qubits.contains(qs[j - 1]) {
            assert forall|a: int, bb: int| 0 <= a < r.qubits.len() && 0 <= bb < r.qubits.len() && a != bb implies r.qubits[a] != r.qubits[bb] by {
                if a == prev.qubits.len() { assert(prev.qubits.contains(r.qubits[bb])); }
                if bb == prev.qubits.len() { assert(prev.qubits.contains(r.qubits[a])); }
            }
        }
        assert forall|x: usize| #[trigger] r.qubits.contains(x) <==> all.contains(x) by {
            if all.contains(x) {
                let i = choose|i: int| 0 <= i < all.len() && all[i] == x;
                if i < allp.len() { assert(allp[i] == x); assert(allp.contains(x)); } else { assert(x == qs[j - 1]); }
            }
            if allp.contains(x) {
                let i = choose|i: int| 0 <= i < allp.len() && allp[i] == x;
                assert(all[i] == x);
            }
            if r.qubits.contains(x) && !prev.qubits.contains(qs[j - 1]) {
                let i = choose|i: int| 0 <= i < r.qubits.len() && r.qubits[i] == x;
                if i < prev.qubits.len() { assert(prev.qubits[i] == x); assert(prev.qubits.contains(x)); }
            }
            if prev.qubits.contains(x) && !prev.qubits.contains(qs[j - 1]) {
                let i = choose|i: int| 0 <= i < prev.qubits.len() && prev.qubits[i] == x;
                assert(r.qubits[i] == x);
            }
            if !prev.qubits.contains(qs[j - 1]) && x == qs[j - 1] {
                assert(r.qubits[prev.qubits.len() as int] == x);
            }
            assert(all[all.len() - 1] == qs[j - 1]);
        }
    }
}

proof fn lemma_distinct_count_of_distinct(s: Seq<usize>)
    requires
        s.no_duplicates(),
    ensures
        distinct_count(s) == s.len(),
    decreases s.len(),
{
    if s.len() > 0 {
        let t = s.drop_last();
        assert(t.no_duplicates()) by {
            assert forall|a: int, b: int| 0 <= a < t.len() && 0 <= b < t.len() && a != b implies t[a] != t[b] by {
                assert(t[a] == s[a] && t[b] == s[b]);
            }
        }
        lemma_distinct_count_of_distinct(t);
        assert(!t.contains(s.last())) by {
            if t.contains(s.last()) {
                let i = choose|i: int| 0 <= i < t.len() && t[i] == s.last();
                assert(s[i] == s[s.len() - 1]);
            }
        }
    }
}

proof fn lemma_close_in_inv(st: PartModel, idx: usize, qs: Seq<usize>, c: usize, ops: Seq<Seq<usize>>, cap: nat)
    requires
        part_inv(st, ops, cap),
        idx < st.bins.len(),
    ensures
        part_inv(close_in(st, idx, qs, c), ops, cap),
        forall|x: int| 0 <= x < st.bins.len() ==> (#[trigger] close_in(st, idx, qs, c).bins[x]).qubits == st.bins[x].qubits
            && close_in(st, idx, qs, c).bins[x].ops == st.bins[x].ops,
        close_in(st, idx, qs, c).bins.len() == st.bins.len(),
{
    let r = close_in(st, idx, qs, c);
    assert forall|x: int| 0 <= x < st.bins.len() implies (#[trigger] r.bins[x]).qubits == st.bins[x].qubits
        && r.bins[x].ops == st.bins[x].ops by {
        if x != idx { assert(r.bins[x] == st.bins[x]); }
    }
}

proof fn lemma_close_rejected_inv(st: PartModel, ov: Seq<usize>, keep: Seq<usize>, qs: Seq<usize>, c: usize, m: int,
    ops: Seq<Seq<usize>>, cap: nat)
    requires
        part_inv(st, ops, cap),
        0 <= m <= ov.len(),
        forall|i: int| 0 <= i < ov.len() ==> (#[trigger] ov[i]) < st.bins.len(),
    ensures
        part_inv(close_rejected(st, ov, keep, qs, c, m), ops, cap),
        close_rejected(st, ov, keep, qs, c, m).bins.len() == st.bins.len(),
        forall|x: int| 0 <= x < st.bins.len() ==> (#[trigger] close_rejected(st, ov, keep, qs, c, m).bins[x]).qubits == st.bins[x].qubits
            && close_rejected(st, ov, keep, qs, c, m).bins[x].ops == st.bins[x].ops,
    decreases m,
{
    if m > 0 {
        lemma_close_rejected_inv(st, ov, keep, qs, c, m - 1, ops, cap);
        let prev = close_rejected(st, ov, keep, qs, c, m - 1);
        if !keep.contains(ov[m - 1]) {
            lemma_close_in_inv(prev, ov[m - 1], qs, c, ops, cap);
        }
    }
}

proof fn lemma_close_others_inv(st: PartModel, adm: Seq<usize>, sel: usize, qs: Seq<usize>, c: usize, m: int,
    ops: Seq<Seq<usize>>, cap: nat)
    requires
        part_inv(st, ops, cap),
        0 <= m <= adm.len(),
        forall|i: int| 0 <= i < adm.len() ==> (#[trigger] adm[i]) < st.bins.len(),
    ensures
        part_inv(close_others(st, adm, sel, qs, c, m), ops, cap),
        close_others(st, adm, sel, qs, c, m).bins.len() == st.bins.len(),
        forall|x: int| 0 <= x < st.bins.len() ==> (#[trigger] close_others(st, adm, sel, qs, c, m).bins[x]).qubits == st.bins[x].qubits
            && close_others(st, adm, sel, qs, c, m).bins[x].ops == st.bins[x].ops,
    decreases m,
{
    if m > 0 {
        lemma_close_others_inv(st, adm, sel, qs, c, m - 1, ops, cap);
        let prev = close_others(st, adm, sel, qs, c, m - 1);
        if adm[m - 1] != sel {
            lemma_close_in_inv(prev, adm[m - 1], qs, c, ops, cap);
        }
    }
}

proof fn lemma_close_all_inv(st: PartModel, still: Seq<usize>, c: usize, m: int, ops: Seq<Seq<usize>>, cap: nat)
    requires
        part_inv(st, ops, cap),
        0 <= m <= still.len(),
        forall|i: int| 0 <= i < still.len() ==> (#[trigger] still[i]) < st.bins.len(),
    ensures
        part_inv(close_all(st, still, c, m), ops, cap),
        close_all(st, still, c, m).bins.len() == st.bins.len(),
    decreases m,
{
    if m > 0 {
        lemma_close_all_inv(st, still, c, m - 1, ops, cap);
        let prev = close_all(st, still, c, m - 1);
        lemma_close_in_inv(prev, still[m - 1], prev.bins[still[m - 1] as int].qubits, c, ops, cap);
    }
}

proof fn lemma_widest(ops: Seq<Seq<usize>>, i: int, m: int)
    requires
        0 <= i < m <= ops.len(),
    ensures
        ops[i].len() <= widest(ops, m),
    decreases m,
{
    if i < m - 1 {
        lemma_widest(ops, i, m - 1);
    }
}

proof fn lemma_admissible_ok(bins: Seq<BinModel>, ov: Seq<usize>, qs: Seq<usize>, block_size: usize, m: int)
    requires
        0 <= m <= ov.len(),
    ensures
        forall|j: int| 0 <= j < admissible_upto(bins, ov, qs, block_size, m).len() ==>
            can_accommodate(bins[#[trigger] admissible_upto(bins, ov, qs, block_size, m)[j] as int], qs, block_size),
    decreases m,
{
    if m > 0 {
        lemma_admissible_ok(bins, ov, qs, block_size, m - 1);
        let prev = admissible_upto(bins, ov, qs, block_size, m - 1);
        let r = admissible_upto(bins, ov, qs, block_size, m);
        assert forall|j: int| 0 <= j < r.len() implies can_accommodate(bins[#[trigger] r[j] as int], qs, block_size) by {
            if j < prev.len() { assert(r[j] == prev[j]); }
        }
    }
}

proof fn lemma_with_op_inv(st: PartModel, sel: usize, qs: Seq<usize>, i: usize, c: usize, ops: Seq<Seq<usize>>, cap: nat)
    requires
        part_inv(st, ops, cap),
        sel < st.bins.len(),
        i < ops.len(),
        qs == ops[i as int],
        distinct_count(st.bins[sel as int].qubits + qs) <= cap,
    ensures
        part_inv(with_op(st, sel, qs, i, c), ops, cap),
{
    let b = st.bins[sel as int];
    lemma_join_qubits_count(b, qs, c, qs.len() as int);
    assert(qs.take(qs.len() as int) =~= qs);
    let nb = add_op_model(b, qs, i, c);
    let r = with_op(st, sel, qs, i, c);
    assert forall|x: usize| #[trigger] b.qubits.contains(x) implies nb.qubits.contains(x) by {
        let k = choose|k: int| 0 <= k < b.qubits.len() && b.qubits[k] == x;
        assert((b.qubits + qs)[k] == x);
    }
    assert forall|j: int| 0 <= j < qs.len() implies nb.qubits.contains(#[trigger] qs[j]) by {
        assert((b.qubits + qs)[b.qubits.len() + j] == qs[j]);
    }
    assert forall|j: int| 0 <= j < nb.ops.len() implies op_within(ops, #[trigger] nb.ops[j], nb.qubits) by {
        if j < b.ops.len() {
            assert(nb.ops[j] == b.ops[j]);
            assert(op_within(ops, b.ops[j], b.qubits));
            assert forall|k: int| 0 <= k < ops[b.ops[j] as int].len() implies nb.qubits.contains(#[trigger] ops[b.ops[j] as int][k]) by {
                assert(b.qubits.contains(ops[b.ops[j] as int][k]));
            }
        } else {
            assert(nb.ops[j] == i);
        }
    }
    assert forall|x: int| 0 <= x < r.bins.len() implies (#[trigger] r.bins[x]).qubits.no_duplicates()
        && r.bins[x].qubits.len() <= cap
        && forall|j: int| 0 <= j < r.bins[x].ops.len() ==> op_within(ops, #[trigger] r.bins[x].ops[j], r.bins[x].qubits) by {
        if x != sel { assert(r.bins[x] == st.bins[x]); }
    }
}

proof fn lemma_propagate_inv(st: PartModel, sel: usize, selq: Seq<usize>, selb: Seq<bool>, others: Seq<usize>, m: int,
    ops: Seq<Seq<usize>>, cap: nat)
    requires
        part_inv(st, ops, cap),
        0 <= m <= others.len(),
        forall|i: int| 0 <= i < others.len() ==> (#[trigger] others[i]) < st.bins.len(),
    ensures
        part_inv(propagate(st, sel, selq, selb, others, m), ops, cap),
        propagate(st, sel, selq, selb, others, m).bins.len() == st.bins.len(),
    decreases m,
{
    if m > 0 {
        lemma_propagate_inv(st, sel, selq, selb, others, m - 1, ops, cap);
        let prev = propagate(st, sel, selq, selb, others, m - 1);
        let idx = others[m - 1];
        let r = propagate(st, sel, selq, selb, others, m);
        assert forall|x: int| 0 <= x < r.bins.len() implies (#[trigger] r.bins[x]).qubits.no_duplicates()
            && r.bins[x].qubits.len() <= cap
            && forall|j: int| 0 <= j < r.bins[x].ops.len() ==> op_within(ops, #[trigger] r.bins[x].ops[j], r.bins[x].qubits) by {
            if x != idx { assert(r.bins[x] == prev.bins[x]); } else {
                assert(r.bins[x].qubits == prev.bins[x].qubits && r.bins[x].ops == prev.bins[x].ops);
            }
        }
    }
}

proof fn lemma_op_step_inv(st: PartModel, qs: Seq<usize>, i: usize, c: usize, block_size: usize, n: nat, ops: Seq<Seq<usize>>)
    requires
        part_inv(st, ops, size_cap(ops, block_size)),
        state_ok(st, n),
        i < ops.len(),
        qs == ops[i as int],
        forall|j: int| 0 <= j < qs.len() ==> (#[trigger] qs[j]) < n,
        st.bins.len() < usize::MAX,
    ensures
        part_inv(op_step(st, qs, i, c, block_size, n), ops, size_cap(ops, block_size)),
        state_ok(op_step(st, qs, i, c, block_size, n), n),
        op_step(st, qs, i, c, block_size, n).bins.len() <= st.bins.len() + 1,
{
    let cap = size_cap(ops, block_size);
    let ov = sorted_set(open_bins_of(st.active_bin_of, qs, qs.len() as int));
    lemma_open_bins_of_range(st, qs, qs.len() as int, n);
    lemma_sorted_set_members(open_bins_of(st.active_bin_of, qs, qs.len() as int), st.bins.len());
    let adm = admissible_upto(st.bins, ov, qs, block_size, ov.len() as int);
    lemma_admissible_members(st.bins, ov, qs, block_size, ov.len() as int);
    lemma_admissible_ok(st.bins, ov, qs, block_size, ov.len() as int);
    assert forall|x: int| 0 <= x < adm.len() implies (#[trigger] adm[x]) < st.bins.len() by {
        assert(adm.contains(adm[x]));
        assert(ov.contains(adm[x]));
        let y = choose|y: int| 0 <= y < ov.len() && ov[y] == adm[x];
    }
    let s1 = close_rejected(st, ov, adm, qs, c, ov.len() as int);
    lemma_close_rejected_ok(st, ov, adm, qs, c, ov.len() as int, n);
    lemma_close_rejected_inv(st, ov, adm, qs, c, ov.len() as int, ops, cap);
    let sel = selected_bin(s1.bins, adm, qs);
    let s2 = if adm.len() == 0 { PartModel { bins: s1.bins.push(empty_bin(n)), ..s1 } } else { s1 };
    assert(state_ok(s2, n) && part_inv(s2, ops, cap)) by {
        if adm.len() == 0 {
            assert forall|b: int| 0 <= b < s2.bins.len() implies bin_shaped(#[trigger] s2.bins[b], n) by {
                if b < s1.bins.len() { assert(s2.bins[b] == s1.bins[b]); }
            }
            assert forall|b: int, q: int| 0 <= b < s2.bins.len() && 0 <= q < s2.bins[b].qubits.len()
                implies (#[trigger] s2.bins[b].qubits[q]) < n by {
                if b < s1.bins.len() { assert(s2.bins[b] == s1.bins[b]); }
            }
            assert forall|x: int| 0 <= x < s2.bins.len() implies (#[trigger] s2.bins[x]).qubits.no_duplicates()
                && s2.bins[x].qubits.len() <= cap
                && forall|j: int| 0 <= j < s2.bins[x].ops.len() ==> op_within(ops, #[trigger] s2.bins[x].ops[j], s2.bins[x].qubits) by {
                if x < s1.bins.len() { assert(s2.bins[x] == s1.bins[x]); }
            }
        }
    }
    assert(sel < s2.bins.len()) by {
        if adm.len() > 0 {
            let f = first_covering(s1.bins, adm, qs, 0);
            lemma_first_covering_range(s1.bins, adm, qs, 0);
        }
    }
    // the selected bin's qubits together with those of the operation fit
    lemma_widest(ops, i as int, ops.len() as int);
    assert(distinct_count(s2.bins[sel as int].qubits + qs) <= cap) by {
        if adm.len() == 0 {
            assert(sel as int == s1.bins.len());
            assert(s2.bins[sel as int] == empty_bin(n));
            assert(Seq::<usize>::empty() + qs =~= qs);
            lemma_distinct_count_le(qs);
        } else {
            let f = first_covering(s1.bins, adm, qs, 0);
            lemma_first_covering_range(s1.bins, adm, qs, 0);
            let k = if f < adm.len() { f } else { 0 };
            assert(sel == adm[k]);
            assert(can_accommodate(st.bins[adm[k] as int], qs, block_size));
            assert(s2.bins[sel as int].qubits == st.bins[sel as int].qubits);
        }
    }
    let s3 = close_others(s2, adm, sel, qs, c, adm.len() as int);
    lemma_close_others_ok(s2, adm, sel, qs, c, adm.len() as int, n);
    lemma_close_others_inv(s2, adm, sel, qs, c, adm.len() as int, ops, cap);
    let s4 = with_op(s3, sel, qs, i, c);
    lemma_with_op_ok(s3, sel, qs, i, c, n);
    lemma_with_op_inv(s3, sel, qs, i, c, ops, cap);
    let others = sorted_set(open_bins(s4.active_bin_of, n as int));
    lemma_open_bins_range(s4, n as int, n);
    lemma_sorted_set_members(open_bins(s4.active_bin_of, n as int), s4.bins.len());
    lemma_propagate_ok(s4, sel, s4.bins[sel as int].qubits, s4.bins[sel as int].blocked, others, others.len() as int, n);
    lemma_propagate_inv(s4, sel, s4.bins[sel as int].qubits, s4.bins[sel as int].blocked, others, others.len() as int, ops, cap);
}

proof fn lemma_first_covering_range(bins: Seq<BinModel>, adm: Seq<usize>, qs: Seq<usize>, i: int)
    requires
        0 <= i <= adm.len(),
    ensures
        i <= first_covering(bins, adm, qs, i) <= adm.len(),
    decreases adm.len() - i,
{
    if i < adm.len() && !covers(bins[adm[i] as int], qs) {
        lemma_first_covering_range(bins, adm, qs, i + 1);
    }
}

proof fn lemma_sorted_set_len(s: Seq<usize>)
    ensures
        sorted_set(s).len() <= s.len(),
    decreases s.len(),
{
    if s.len() > 0 {
        lemma_sorted_set_len(s.drop_last());
        lemma_pos_range(sorted_set(s.drop_last()), s.last(), 0);
    }
}

proof fn lemma_pos_range(s: Seq<usize>, x: usize, i: int)
    requires
        0 <= i <= s.len(),
    ensures
        i <= pos_not_below(s, x, i) <= s.len(),
    decreases s.len() - i,
{
    if i < s.len() && s[i] < x {
        lemma_pos_range(s, x, i + 1);
    }
}

proof fn lemma_within_more(ops: Seq<Seq<usize>>, o: usize, a: Seq<usize>, b: Seq<usize>)
    requires
        op_within(ops, o, a),
        forall|x: usize| #[trigger] a.contains(x) ==> b.contains(x),
    ensures
        op_within(ops, o, b),
{
    assert forall|j: int| 0 <= j < ops[o as int].len() implies b.contains(#[trigger] ops[o as int][j]) by {
        assert(a.contains(ops[o as int][j]));
    }
}

proof fn lemma_merge_inv(placed: Seq<Option<PlacedModel>>, rear_of: Seq<Option<usize>>, mops: Seq<usize>, qset: Seq<usize>,
    ops: Seq<Seq<usize>>, cap: nat)
    requires
        forall|c: int| 0 <= c < placed.len() && (#[trigger] placed[c]) is Some ==> placed_ok(placed[c]->0, ops, cap),
        qset.len() <= cap,
        forall|j: int| 0 <= j < mops.len() ==> op_within(ops, #[trigger] mops[j], qset),
    ensures
        merge_blocks(placed, rear_of, mops, qset).1.len() <= cap,
        forall|j: int| 0 <= j < merge_blocks(placed, rear_of, mops, qset).0.len() ==>
            op_within(ops, #[trigger] merge_blocks(placed, rear_of, mops, qset).0[j], merge_blocks(placed, rear_of, mops, qset).1),
        forall|c: int| 0 <= c < merge_blocks(placed, rear_of, mops, qset).2.len() && (#[trigger] merge_blocks(placed, rear_of, mops, qset).2[c]) is Some
            ==> placed_ok(merge_blocks(placed, rear_of, mops, qset).2[c]->0, ops, cap),
    decreases some_count(placed),
{
    let cands = sorted_set(rear_cands(rear_of, qset, qset.len() as int));
    let k = merge_pick(placed, rear_of, cands, qset, 0);
    if 0 <= k < cands.len() && can_merge(placed, rear_of, cands[k], qset) {
        let c = cands[k];
        let cand = placed[c as int]->0;
        lemma_some_count_take(placed, c as int);
        let p2 = placed.update(c as int, None);
        assert forall|x: int| 0 <= x < p2.len() && (#[trigger] p2[x]) is Some implies placed_ok(p2[x]->0, ops, cap) by {
            assert(p2[x] == placed[x]);
        }
        assert(placed_ok(cand, ops, cap));
        let keep = subset_of(cand.qubits, qset);
        let q2 = if keep { qset } else { cand.qubits };
        let o2 = cand.ops + mops;
        assert forall|j: int| 0 <= j < o2.len() implies op_within(ops, #[trigger] o2[j], q2) by {
            if j < cand.ops.len() {
                assert(o2[j] == cand.ops[j]);
                assert(op_within(ops, cand.ops[j], cand.qubits));
                if keep {
                    assert forall|x: usize| #[trigger] cand.qubits.contains(x) implies qset.contains(x) by {
                        let i = choose|i: int| 0 <= i < cand.qubits.len() && cand.qubits[i] == x;
                    }
                    lemma_within_more(ops, cand.ops[j], cand.qubits, qset);
                }
            } else {
                assert(o2[j] == mops[j - cand.ops.len()]);
                assert(op_within(ops, mops[j - cand.ops.len()], qset));
                if !keep {
                    assert(subset_of(qset, cand.qubits));
                    assert forall|x: usize| #[trigger] qset.contains(x) implies cand.qubits.contains(x) by {
                        let i = choose|i: int| 0 <= i < qset.len() && qset[i] == x;
                    }
                    lemma_within_more(ops, mops[j - cand.ops.len()], qset, cand.qubits);
                }
            }
        }
        lemma_merge_inv(p2, rear_of, o2, q2, ops, cap);
    }
}

proof fn lemma_place_one_inv(st: PartModel, p: int, n: nat, ops: Seq<Seq<usize>>, cap: nat)
    requires
        part_inv(st, ops, cap),
        state_ok(st, n),
        0 <= p < st.pending.len(),
    ensures
        part_inv(place_one(st, p), ops, cap),
{
    let idx = st.pending[p];
    let b = st.bins[idx as int];
    assert(idx < st.bins.len());
    assert(b.qubits.len() <= cap);
    lemma_merge_inv(st.placed, st.rear_of, b.ops, b.qubits, ops, cap);
    let m = merge_blocks(st.placed, st.rear_of, b.ops, b.qubits);
    let qs3 = sorted_set(m.1);
    lemma_sorted_set(m.1);
    lemma_sorted_set_len(m.1);
    let r = place_one(st, p);
    assert(placed_ok(PlacedModel { qubits: qs3, ops: m.0 }, ops, cap)) by {
        assert forall|j: int| 0 <= j < m.0.len() implies op_within(ops, #[trigger] m.0[j], qs3) by {
            lemma_within_more(ops, m.0[j], m.1, qs3);
        }
    }
    assert forall|x: int| 0 <= x < r.bins.len() implies (#[trigger] r.bins[x]).qubits.no_duplicates()
        && r.bins[x].qubits.len() <= cap
        && forall|j: int| 0 <= j < r.bins[x].ops.len() ==> op_within(ops, #[trigger] r.bins[x].ops[j], r.bins[x].qubits) by {
        if x != idx { assert(r.bins[x] == st.bins[x]); }
    }
    assert forall|c: int| 0 <= c < r.placed.len() && (#[trigger] r.placed[c]) is Some implies placed_ok(r.placed[c]->0, ops, cap) by {
        if c < m.2.len() { assert(r.placed[c] == m.2[c]); }
    }
}

proof fn lemma_flush_inv(st: PartModel, n: nat, ops: Seq<Seq<usize>>, cap: nat)
    requires
        part_inv(st, ops, cap),
        state_ok(st, n),
    ensures
        part_inv(flush(st), ops, cap),
        state_ok(flush(st), n),
        flush(st).bins.len() == st.bins.len(),
    decreases st.pending.len(),
{
    let p = ready_from(st.bins, st.pending, st.dividing_line, 0);
    if 0 <= p < st.pending.len() {
        lemma_place_one_ok(st, p, n);
        lemma_place_one_inv(st, p, n, ops, cap);
        lemma_flush_inv(place_one(st, p), n, ops, cap);
    }
}

proof fn lemma_run_inv(ops: Seq<Seq<usize>>, n: nat, block_size: usize, k: int)
    requires
        qubits_below(ops, n),
        0 <= k <= ops.len(),
        ops.len() <= usize::MAX,
    ensures
        part_inv(run_upto(ops, n, block_size, k), ops, size_cap(ops, block_size)),
        state_ok(run_upto(ops, n, block_size, k), n),
        run_upto(ops, n, block_size, k).bins.len() <= k,
    decreases k,
{
    let cap = size_cap(ops, block_size);
    lemma_cycles_bounded(ops, n, ops.len() as int);
    if k == 0 {
        let st = run_upto(ops, n, block_size, 0);
        assert(state_ok(st, n));
    } else {
        lemma_run_inv(ops, n, block_size, k - 1);
        let prev = run_upto(ops, n, block_size, k - 1);
        let cy = cycles_upto(ops, n, ops.len() as int);
        let qs = ops[k - 1];
        assert forall|j: int| 0 <= j < qs.len() implies (#[trigger] qs[j]) < n by {
            assert(ops[k - 1][j] < n);
        }
        let i = (k - 1) as usize;
        assert(i as int == k - 1);
        lemma_op_step_inv(prev, qs, i, cy.cycles[k - 1], block_size, n, ops);
        lemma_flush_inv(op_step(prev, qs, i, cy.cycles[k - 1], block_size, n), n, ops, cap);
    }
}

/// The placed blocks still there are among the placed entries.
proof fn lemma_placed_blocks(placed: Seq<Option<PlacedModel>>, m: int, ops: Seq<Seq<usize>>, cap: nat)
    requires
        0 <= m <= placed.len(),
        forall|c: int| 0 <= c < placed.len() && (#[trigger] placed[c]) is Some ==> placed_ok(placed[c]->0, ops, cap),
    ensures
        forall|j: int| 0 <= j < placed_blocks(placed, m).len() ==> placed_ok(#[trigger] placed_blocks(placed, m)[j], ops, cap),
    decreases m,
{
    if m > 0 {
        lemma_placed_blocks(placed, m - 1, ops, cap);
        let prev = placed_blocks(placed, m - 1);
        let r = placed_blocks(placed, m);
        assert forall|j: int| 0 <= j < r.len() implies placed_ok(#[trigger] r[j], ops, cap) by {
            if j < prev.len() { assert(r[j] == prev[j]); } else { assert(placed[m - 1] is Some); }
        }
    }
}

/// Every window of the partition lists its qubits in increasing order, has
/// at most `block_size` qubits (or, where one operation is wider, no more
/// than the widest operation has), and holds only operations of the circuit
/// that act on its qubits.
pub proof fn lemma_partition_windows(ops: Seq<Seq<usize>>, n: nat, block_size: usize)
    requires
        qubits_below(ops, n),
        ops.len() <= usize::MAX,
    ensures
        forall|j: int| 0 <= j < partitioned(ops, n, block_size).len() ==>
            placed_ok(#[trigger] partitioned(ops, n, block_size)[j], ops, size_cap(ops, block_size)),
{
    let cap = size_cap(ops, block_size);
    let cy = cycles_upto(ops, n, ops.len() as int);
    lemma_run_inv(ops, n, block_size, ops.len() as int);
    let st = run_upto(ops, n, block_size, ops.len() as int);
    let fc = max_of(cy.next_cycle, n as int);
    let still = sorted_set(open_bins(st.active_bin_of, n as int));
    lemma_open_bins_range(st, n as int, n);
    lemma_sorted_set_members(open_bins(st.active_bin_of, n as int), st.bins.len());
    lemma_close_all_ok(st, still, fc, still.len() as int, n);
    lemma_close_all_inv(st, still, fc, still.len() as int, ops, cap);
    let closed = close_all(st, still, fc, still.len() as int);
    lemma_flush_inv(closed, n, ops, cap);
    let fin = flush(closed);
    lemma_placed_blocks(fin.placed, fin.placed.len() as int, ops, cap);
}

/// How often operation `x` occurs in the first `m` bins.
pub open spec fn bins_count(bins: Seq<BinModel>, x: usize, m: int) -> nat
    decreases m,
{
    if m <= 0 { 0 } else { bins_count(bins, x, m - 1) + count_id(bins[m - 1].ops, x) }
}

/// How often operation `x` occurs in the first `m` placed blocks still there.
pub open spec fn placed_count(placed: Seq<Option<PlacedModel>>, x: usize, m: int) -> nat
    decreases m,
{
    if m <= 0 {
        0
    } else {
        placed_count(placed, x, m - 1) + (match placed[m - 1] {
            Some(p) => count_id(p.ops, x),
            None => 0nat,
        })
    }
}

/// How often operation `x` occurs in the bins and placed blocks of `st`.
pub open spec fn total_count(st: PartModel, x: usize) -> nat {
    bins_count(st.bins, x, st.bins.len() as int) + placed_count(st.placed, x, st.placed.len() as int)
}

proof fn lemma_count_id_concat(a: Seq<usize>, b: Seq<usize>, x: usize)
    ensures
        count_id(a + b, x) == count_id(a, x) + count_id(b, x),
    decreases b.len(),
{
    if b.len() == 0 {
        assert(a + b =~= a);
    } else {
        lemma_count_id_concat(a, b.drop_last(), x);
        assert((a + b).drop_last() =~= a + b.drop_last());
    }
}

proof fn lemma_bins_count_update(bins: Seq<BinModel>, i: int, nb: BinModel, x: usize, m: int)
    requires
        0 <= i < bins.len(),
        0 <= m <= bins.len(),
    ensures
        bins_count(bins.update(i, nb), x, m) + (if i < m { count_id(bins[i].ops, x) } else { 0 })
            == bins_count(bins, x, m) + (if i < m { count_id(nb.ops, x) } else { 0 }),
    decreases m,
{
    if m > 0 {
        lemma_bins_count_update(bins, i, nb, x, m - 1);
    }
}

proof fn lemma_bins_count_push(bins: Seq<BinModel>, nb: BinModel, x: usize, m: int)
    requires
        0 <= m <= bins.len(),
    ensures
        bins_count(bins.push(nb), x, m) == bins_count(bins, x, m),
    decreases m,
{
    if m > 0 {
        lemma_bins_count_push(bins, nb, x, m - 1);
    }
}

proof fn lemma_placed_count_update(placed: Seq<Option<PlacedModel>>, c: int, v: Option<PlacedModel>, x: usize, m: int)
    requires
        0 <= c < placed.len(),
        0 <= m <= placed.len(),
    ensures
        placed_count(placed.update(c, v), x, m) + (if c < m { match placed[c] { Some(p) => count_id(p.ops, x), None => 0nat } } else { 0 })
            == placed_count(placed, x, m) + (if c < m { match v { Some(p) => count_id(p.ops, x), None => 0nat } } else { 0 }),
    decreases m,
{
    if m > 0 {
        lemma_placed_count_update(placed, c, v, x, m - 1);
    }
}

proof fn lemma_placed_count_push(placed: Seq<Option<PlacedModel>>, v: Option<PlacedModel>, x: usize, m: int)
    requires
        0 <= m <= placed.len(),
    ensures
        placed_count(placed.push(v), x, m) == placed_count(placed, x, m),
    decreases m,
{
    if m > 0 {
        lemma_placed_count_push(placed, v, x, m - 1);
    }
}

/// Merging moves operations between the block being placed and the placed
/// blocks it absorbs without losing or adding any.
proof fn lemma_merge_count(placed: Seq<Option<PlacedModel>>, rear_of: Seq<Option<usize>>, mops: Seq<usize>, qset: Seq<usize>, x: usize)
    ensures
        count_id(merge_blocks(placed, rear_of, mops, qset).0, x) + placed_count(merge_blocks(placed, rear_of, mops, qset).2, x, placed.len() as int)
            == count_id(mops, x) + placed_count(placed, x, placed.len() as int),
        merge_blocks(placed, rear_of, mops, qset).2.len() == placed.len(),
    decreases some_count(placed),
{
    let cands = sorted_set(rear_cands(rear_of, qset, qset.len() as int));
    let k = merge_pick(placed, rear_of, cands, qset, 0);
    if 0 <= k < cands.len() && can_merge(placed, rear_of, cands[k], qset) {
        let c = cands[k];
        let cand = placed[c as int]->0;
        lemma_some_count_take(placed, c as int);
        let p2 = placed.update(c as int, None);
        let q2 = if subset_of(cand.qubits, qset) { qset } else { cand.qubits };
        lemma_merge_count(p2, rear_of, cand.ops + mops, q2, x);
        lemma_count_id_concat(cand.ops, mops, x);
        lemma_placed_count_update(placed, c as int, None, x, placed.len() as int);
    }
}

/// After reading `k` operations: each operation read occurs exactly once in
/// the bins and placed blocks and no other operation occurs there; a qubit
/// open in a bin is recorded as held by that bin; and a bin holding
/// operations is open on some qubit or waits to be placed.
pub open spec fn part_inv2(st: PartModel, k: int, n: nat) -> bool {
    &&& st.bins.len() <= usize::MAX
    &&& forall|x: usize| #[trigger] total_count(st, x) == (if x < k { 1nat } else { 0nat })
    &&& forall|b: int, q: usize| 0 <= b < st.bins.len() && q < n && #[trigger] is_active(st.bins[b], q)
        ==> st.active_bin_of[q as int] == Some(b as usize)
    &&& forall|b: int| 0 <= b < st.bins.len() && (#[trigger] st.bins[b]).ops.len() > 0
        ==> !all_closed(st.bins[b]) || st.pending.contains(b as usize)
}

proof fn lemma_close_model_active(b: BinModel, qs: Seq<usize>, c: usize, q: usize)
    requires
        b.active.len() == b.qubits.len(),
    ensures
        is_active(close_model(b, qs, c), q) <==> is_active(b, q) && !qs.contains(q),
{
    let r = close_model(b, qs, c);
    if is_active(r, q) {
        let j = choose|j: int| 0 <= j < r.qubits.len() && r.qubits[j] == q && r.active[j];
        assert(b.qubits[j] == q && b.active[j]);
    }
    if is_active(b, q) && !qs.contains(q) {
        let j = choose|j: int| 0 <= j < b.qubits.len() && b.qubits[j] == q && b.active[j];
        assert(r.qubits[j] == q && r.active[j]);
    }
}

proof fn lemma_close_in_inv2(st: PartModel, idx: usize, qs: Seq<usize>, c: usize, k: int, n: nat)
    requires
        part_inv2(st, k, n),
        state_ok(st, n),
        idx < st.bins.len(),
    ensures
        part_inv2(close_in(st, idx, qs, c), k, n),
        forall|b: int, q: usize| 0 <= b < st.bins.len() ==> (#[trigger] is_active(close_in(st, idx, qs, c).bins[b], q)
            <==> is_active(st.bins[b], q) && !(b == idx && qs.contains(q))),
        forall|q: int| 0 <= q < n ==> (#[trigger] close_in(st, idx, qs, c).active_bin_of[q] == st.active_bin_of[q]
            || close_in(st, idx, qs, c).active_bin_of[q] is None),
{
    let r = close_in(st, idx, qs, c);
    assert(bin_shaped(st.bins[idx as int], n));
    assert forall|b: int, q: usize| 0 <= b < st.bins.len() implies (#[trigger] is_active(r.bins[b], q)
        <==> is_active(st.bins[b], q) && !(b == idx && qs.contains(q))) by {
        if b == idx {
            lemma_close_model_active(st.bins[b], qs, c, q);
        } else {
            assert(r.bins[b] == st.bins[b]);
        }
    }
    assert(r.bins =~= st.bins.update(idx as int, r.bins[idx as int]));
    assert(r.bins[idx as int].ops == st.bins[idx as int].ops);
    assert forall|x: usize| #[trigger] total_count(r, x) == (if x < k { 1nat } else { 0nat }) by {
        lemma_bins_count_update(st.bins, idx as int, r.bins[idx as int], x, st.bins.len() as int);
        assert(bins_count(r.bins, x, r.bins.len() as int) == bins_count(st.bins, x, st.bins.len() as int));
        assert(total_count(r, x) == total_count(st, x));
    }
    assert forall|b: int, q: usize| 0 <= b < r.bins.len() && q < n && #[trigger] is_active(r.bins[b], q)
        implies r.active_bin_of[q as int] == Some(b as usize) by {
        assert(is_active(st.bins[b], q));
        assert(st.active_bin_of[q as int] == Some(b as usize));
    }
    assert forall|b: int| 0 <= b < r.bins.len() && (#[trigger] r.bins[b]).ops.len() > 0
        implies !all_closed(r.bins[b]) || r.pending.contains(b as usize) by {
        if b != idx {
            assert(r.bins[b] == st.bins[b]);
            if st.pending.contains(b as usize) {
                let i = choose|i: int| 0 <= i < st.pending.len() && st.pending[i] == b as usize;
                assert(r.pending[i] == b as usize);
            }
        } else if all_closed(r.bins[b]) {
            assert(r.pending[r.pending.len() - 1] == idx);
        }
    }
}

proof fn lemma_close_rejected_inv2(st: PartModel, ov: Seq<usize>, keep: Seq<usize>, qs: Seq<usize>, c: usize, m: int, k: int, n: nat)
    requires
        part_inv2(st, k, n),
        state_ok(st, n),
        0 <= m <= ov.len(),
        forall|i: int| 0 <= i < ov.len() ==> (#[trigger] ov[i]) < st.bins.len(),
    ensures
        part_inv2(close_rejected(st, ov, keep, qs, c, m), k, n),
        forall|b: int, q: usize| 0 <= b < st.bins.len() ==> (#[trigger] is_active(close_rejected(st, ov, keep, qs, c, m).bins[b], q)
            <==> is_active(st.bins[b], q) && !(qs.contains(q) && ov.take(m).contains(b as usize) && !keep.contains(b as usize))),
        forall|q: int| 0 <= q < n ==> (#[trigger] close_rejected(st, ov, keep, qs, c, m).active_bin_of[q] == st.active_bin_of[q]
            || close_rejected(st, ov, keep, qs, c, m).active_bin_of[q] is None),
    decreases m,
{
    if m > 0 {
        lemma_close_rejected_inv2(st, ov, keep, qs, c, m - 1, k, n);
        lemma_close_rejected_ok(st, ov, keep, qs, c, m - 1, n);
        let prev = close_rejected(st, ov, keep, qs, c, m - 1);
        let r = close_rejected(st, ov, keep, qs, c, m);
        let y = ov[m - 1];
        assert forall|b: usize| #[trigger] ov.take(m).contains(b) <==> ov.take(m - 1).contains(b) || b == y by {
            if ov.take(m).contains(b) {
                let i = choose|i: int| 0 <= i < m && #[trigger] ov.take(m)[i] == b;
                if i < m - 1 { assert(ov.take(m - 1)[i] == b); }
            }
            if ov.take(m - 1).contains(b) {
                let i = choose|i: int| 0 <= i < m - 1 && #[trigger] ov.take(m - 1)[i] == b;
                assert(ov.take(m)[i] == b);
            }
            if b == y { assert(ov.take(m)[m - 1] == b); }
        }
        if !keep.contains(y) {
            lemma_close_in_inv2(prev, y, qs, c, k, n);
        }
    } else {
        assert forall|b: usize| !(#[trigger] ov.take(m).contains(b)) by {}
    }
}

proof fn lemma_close_others_inv2(st: PartModel, adm: Seq<usize>, sel: usize, qs: Seq<usize>, c: usize, m: int, k: int, n: nat)
    requires
        part_inv2(st, k, n),
        state_ok(st, n),
        0 <= m <= adm.len(),
        forall|i: int| 0 <= i < adm.len() ==> (#[trigger] adm[i]) < st.bins.len(),
    ensures
        part_inv2(close_others(st, adm, sel, qs, c, m), k, n),
        forall|b: int, q: usize| 0 <= b < st.bins.len() ==> (#[trigger] is_active(close_others(st, adm, sel, qs, c, m).bins[b], q)
            <==> is_active(st.bins[b], q) && !(qs.contains(q) && adm.take(m).contains(b as usize) && b != sel)),
        forall|q: int| 0 <= q < n ==> (#[trigger] close_others(st, adm, sel, qs, c, m).active_bin_of[q] == st.active_bin_of[q]
            || close_others(st, adm, sel, qs, c, m).active_bin_of[q] is None),
    decreases m,
{
    if m > 0 {
        lemma_close_others_inv2(st, adm, sel, qs, c, m - 1, k, n);
        lemma_close_others_ok(st, adm, sel, qs, c, m - 1, n);
        let prev = close_others(st, adm, sel, qs, c, m - 1);
        let y = adm[m - 1];
        assert forall|b: usize| #[trigger] adm.take(m).contains(b) <==> adm.take(m - 1).contains(b) || b == y by {
            if adm.take(m).contains(b) {
                let i = choose|i: int| 0 <= i < m && #[trigger] adm.take(m)[i] == b;
                if i < m - 1 { assert(adm.take(m - 1)[i] == b); }
            }
            if adm.take(m - 1).contains(b) {
                let i = choose|i: int| 0 <= i < m - 1 && #[trigger] adm.take(m - 1)[i] == b;
                assert(adm.take(m)[i] == b);
            }
            if b == y { assert(adm.take(m)[m - 1] == b); }
        }
        if y != sel {
            lemma_close_in_inv2(prev, y, qs, c, k, n);
        }
    } else {
        assert forall|b: usize| !(#[trigger] adm.take(m).contains(b)) by {}
    }
}

proof fn lemma_close_all_inv2(st: PartModel, still: Seq<usize>, c: usize, m: int, k: int, n: nat)
    requires
        part_inv2(st, k, n),
        state_ok(st, n),
        0 <= m <= still.len(),
        forall|i: int| 0 <= i < still.len() ==> (#[trigger] still[i]) < st.bins.len(),
    ensures
        part_inv2(close_all(st, still, c, m), k, n),
        forall|b: int, q: usize| 0 <= b < st.bins.len() && #[trigger] is_active(close_all(st, still, c, m).bins[b], q)
            ==> is_active(st.bins[b], q) && !still.take(m).contains(b as usize),
    decreases m,
{
    if m > 0 {
        lemma_close_all_inv2(st, still, c, m - 1, k, n);
        lemma_close_all_ok(st, still, c, m - 1, n);
        let prev = close_all(st, still, c, m - 1);
        let y = still[m - 1];
        let r = close_all(st, still, c, m);
        lemma_close_in_inv2(prev, y, prev.bins[y as int].qubits, c, k, n);
        assert forall|b: int, q: usize| 0 <= b < st.bins.len() && #[trigger] is_active(r.bins[b], q)
            implies is_active(st.bins[b], q) && !still.take(m).contains(b as usize) by {
            assert(is_active(prev.bins[b], q));
            if b == y {
                let j = choose|j: int| 0 <= j < prev.bins[b].qubits.len() && prev.bins[b].qubits[j] == q && prev.bins[b].active[j];
                assert(prev.bins[y as int].qubits.contains(q));
            }
            if still.take(m).contains(b as usize) {
                let i = choose|i: int| 0 <= i < m && #[trigger] still.take(m)[i] == b as usize;
                if i < m - 1 { assert(still.take(m - 1)[i] == b as usize); }
            }
        }
    }
}

proof fn lemma_join_active(b: BinModel, qs: Seq<usize>, c: usize, j: int)
    requires
        b.active.len() == b.qubits.len(),
        0 <= j <= qs.len(),
    ensures
        join_qubits(b, qs, c, j).active.len() == join_qubits(b, qs, c, j).qubits.len(),
        join_qubits(b, qs, c, j).ops == b.ops,
        forall|x: usize| #[trigger] join_qubits(b, qs, c, j).qubits.contains(x) <==> b.qubits.contains(x) || qs.take(j).contains(x),
        forall|x: usize| #[trigger] is_active(join_qubits(b, qs, c, j), x)
            <==> is_active(b, x) || (qs.take(j).contains(x) && !b.qubits.contains(x)),
    decreases j,
{
    if j == 0 {
        assert forall|x: usize| !(#[trigger] qs.take(0).contains(x)) by {}
    } else {
        lemma_join_active(b, qs, c, j - 1);
        let prev = join_qubits(b, qs, c, j - 1);
        let r = join_qubits(b, qs, c, j);
        let y = qs[j - 1];
        assert forall|x: usize| #[trigger] qs.take(j).contains(x) <==> qs.take(j - 1).contains(x) || x == y by {
            if qs.take(j).contains(x) {
                let i = choose|i: int| 0 <= i < j && #[trigger] qs.take(j)[i] == x;
                if i < j - 1 { assert(qs.take(j - 1)[i] == x); }
            }
            if qs.take(j - 1).contains(x) {
                let i = choose|i: int| 0 <= i < j - 1 && #[trigger] qs.take(j - 1)[i] == x;
                assert(qs.take(j)[i] == x);
            }
            if x == y { assert(qs.take(j)[j - 1] == x); }
        }
        if !prev.qubits.contains(y) {
            assert forall|x: usize| #[trigger] r.qubits.contains(x) <==> prev.qubits.contains(x) || x == y by {
                if r.qubits.contains(x) {
                    let i = choose|i: int| 0 <= i < r.qubits.len() && r.qubits[i] == x;
                    if i < prev.qubits.len() { assert(prev.qubits[i] == x); }
                }
                if prev.qubits.contains(x) {
                    let i = choose|i: int| 0 <= i < prev.qubits.len() && prev.qubits[i] == x;
                    assert(r.qubits[i] == x);
                }
                if x == y { assert(r.qubits[prev.qubits.len() as int] == x); }
            }
            assert forall|x: usize| #[trigger] is_active(r, x) <==> is_active(prev, x) || x == y by {
                if is_active(r, x) {
                    let i = choose|i: int| 0 <= i < r.qubits.len() && r.qubits[i] == x && r.active[i];
                    if i < prev.qubits.len() { assert(prev.qubits[i] == x && prev.active[i]); }
                }
                if is_active(prev, x) {
                    let i = choose|i: int| 0 <= i < prev.qubits.len() && prev.qubits[i] == x && prev.active[i];
                    assert(r.qubits[i] == x && r.active[i]);
                }
                if x == y {
                    assert(r.qubits[prev.qubits.len() as int] == x && r.active[prev.qubits.len() as int]);
                }
            }
        } else {
            assert forall|x: usize| #[trigger] is_active(r, x) <==> is_active(b, x) || (qs.take(j).contains(x) && !b.qubits.contains(x)) by {
                if x == y && !b.qubits.contains(x) {
                    assert(qs.take(j - 1).contains(x));
                }
            }
        }
    }
}

proof fn lemma_propagate_inv2(st: PartModel, sel: usize, selq: Seq<usize>, selb: Seq<bool>, others: Seq<usize>, m: int, k: int, n: nat)
    requires
        part_inv2(st, k, n),
        0 <= m <= others.len(),
        forall|i: int| 0 <= i < others.len() ==> (#[trigger] others[i]) < st.bins.len(),
    ensures
        part_inv2(propagate(st, sel, selq, selb, others, m), k, n),
    decreases m,
{
    if m > 0 {
        lemma_propagate_inv2(st, sel, selq, selb, others, m - 1, k, n);
        let prev = propagate(st, sel, selq, selb, others, m - 1);
        let idx = others[m - 1];
        let r = propagate(st, sel, selq, selb, others, m);
        assert(prev.bins.len() == st.bins.len()) by {
            lemma_propagate_len(st, sel, selq, selb, others, m - 1);
        }
        if idx != sel && overlaps(prev.bins[idx as int], selq) {
            let nb = block_more(prev.bins[idx as int], selq, selb);
            assert(r.bins =~= prev.bins.update(idx as int, nb));
            assert forall|x: usize| #[trigger] total_count(r, x) == (if x < k { 1nat } else { 0nat }) by {
                lemma_bins_count_update(prev.bins, idx as int, nb, x, prev.bins.len() as int);
                assert(total_count(r, x) == total_count(prev, x));
            }
            assert forall|b: int, q: usize| 0 <= b < r.bins.len() && q < n && #[trigger] is_active(r.bins[b], q)
                implies r.active_bin_of[q as int] == Some(b as usize) by {
                if b == idx { assert(is_active(prev.bins[b], q)); } else { assert(r.bins[b] == prev.bins[b]); }
            }
            assert forall|b: int| 0 <= b < r.bins.len() && (#[trigger] r.bins[b]).ops.len() > 0
                implies !all_closed(r.bins[b]) || r.pending.contains(b as usize) by {
                if b != idx { assert(r.bins[b] == prev.bins[b]); } else { assert(r.bins[b].active == prev.bins[b].active); }
            }
        }
    }
}

proof fn lemma_propagate_len(st: PartModel, sel: usize, selq: Seq<usize>, selb: Seq<bool>, others: Seq<usize>, m: int)
    requires
        0 <= m <= others.len(),
        forall|i: int| 0 <= i < others.len() ==> (#[trigger] others[i]) < st.bins.len(),
    ensures
        propagate(st, sel, selq, selb, others, m).bins.len() == st.bins.len(),
        propagate(st, sel, selq, selb, others, m).active_bin_of == st.active_bin_of,
        propagate(st, sel, selq, selb, others, m).pending == st.pending,
    decreases m,
{
    if m > 0 {
        lemma_propagate_len(st, sel, selq, selb, others, m - 1);
    }
}

proof fn lemma_open_bins_of_contains(abo: Seq<Option<usize>>, qs: Seq<usize>, m: int, j: int, b: usize)
    requires
        0 <= j < m <= qs.len(),
        abo[qs[j] as int] == Some(b),
    ensures
        open_bins_of(abo, qs, m).contains(b),
    decreases m,
{
    let r = open_bins_of(abo, qs, m);
    if j == m - 1 {
        assert(r[r.len() - 1] == b);
    } else {
        lemma_open_bins_of_contains(abo, qs, m - 1, j, b);
        let prev = open_bins_of(abo, qs, m - 1);
        let i = choose|i: int| 0 <= i < prev.len() && prev[i] == b;
        assert(r[i] == b);
    }
}

proof fn lemma_open_bins_contains(abo: Seq<Option<usize>>, m: int, q: int, b: usize)
    requires
        0 <= q < m <= abo.len(),
        abo[q] == Some(b),
    ensures
        open_bins(abo, m).contains(b),
    decreases m,
{
    let r = open_bins(abo, m);
    if q == m - 1 {
        assert(r[r.len() - 1] == b);
    } else {
        lemma_open_bins_contains(abo, m - 1, q, b);
        let prev = open_bins(abo, m - 1);
        let i = choose|i: int| 0 <= i < prev.len() && prev[i] == b;
        assert(r[i] == b);
    }
}

proof fn lemma_close_rejected_keeps(st: PartModel, ov: Seq<usize>, keep: Seq<usize>, qs: Seq<usize>, c: usize, m: int)
    requires
        0 <= m <= ov.len(),
        forall|i: int| 0 <= i < ov.len() ==> (#[trigger] ov[i]) < st.bins.len(),
    ensures
        close_rejected(st, ov, keep, qs, c, m).bins.len() == st.bins.len(),
        forall|b: int| 0 <= b < st.bins.len() ==> (#[trigger] close_rejected(st, ov, keep, qs, c, m).bins[b]).qubits == st.bins[b].qubits
            && close_rejected(st, ov, keep, qs, c, m).bins[b].ops == st.bins[b].ops,
        close_rejected(st, ov, keep, qs, c, m).placed == st.placed,
    decreases m,
{
    if m > 0 {
        lemma_close_rejected_keeps(st, ov, keep, qs, c, m - 1);
        let prev = close_rejected(st, ov, keep, qs, c, m - 1);
        let r = close_rejected(st, ov, keep, qs, c, m);
        assert forall|b: int| 0 <= b < st.bins.len() implies (#[trigger] r.bins[b]).qubits == st.bins[b].qubits
            && r.bins[b].ops == st.bins[b].ops by {
            if b != ov[m - 1] { assert(r.bins[b] == prev.bins[b]); }
        }
    }
}

proof fn lemma_close_others_keeps(st: PartModel, adm: Seq<usize>, sel: usize, qs: Seq<usize>, c: usize, m: int)
    requires
        0 <= m <= adm.len(),
        forall|i: int| 0 <= i < adm.len() ==> (#[trigger] adm[i]) < st.bins.len(),
    ensures
        close_others(st, adm, sel, qs, c, m).bins.len() == st.bins.len(),
        forall|b: int| 0 <= b < st.bins.len() ==> (#[trigger] close_others(st, adm, sel, qs, c, m).bins[b]).qubits == st.bins[b].qubits
            && close_others(st, adm, sel, qs, c, m).bins[b].ops == st.bins[b].ops,
        close_others(st, adm, sel, qs, c, m).placed == st.placed,
    decreases m,
{
    if m > 0 {
        lemma_close_others_keeps(st, adm, sel, qs, c, m - 1);
        let prev = close_others(st, adm, sel, qs, c, m - 1);
        let r = close_others(st, adm, sel, qs, c, m);
        assert forall|b: int| 0 <= b < st.bins.len() implies (#[trigger] r.bins[b]).qubits == st.bins[b].qubits
            && r.bins[b].ops == st.bins[b].ops by {
            if b != adm[m - 1] { assert(r.bins[b] == prev.bins[b]); }
        }
    }
}

proof fn lemma_op_step_inv2(st: PartModel, qs: Seq<usize>, i: usize, c: usize, block_size: usize, n: nat)
    requires
        part_inv2(st, i as int, n),
        state_ok(st, n),
        qs.len() > 0,
        forall|j: int| 0 <= j < qs.len() ==> (#[trigger] qs[j]) < n,
        st.bins.len() < usize::MAX,
    ensures
        part_inv2(op_step(st, qs, i, c, block_size, n), i + 1, n),
{
    let k = i as int;
    let ov = sorted_set(open_bins_of(st.active_bin_of, qs, qs.len() as int));
    lemma_open_bins_of_range(st, qs, qs.len() as int, n);
    lemma_sorted_set_members(open_bins_of(st.active_bin_of, qs, qs.len() as int), st.bins.len());
    lemma_sorted_set(open_bins_of(st.active_bin_of, qs, qs.len() as int));
    let adm = admissible_upto(st.bins, ov, qs, block_size, ov.len() as int);
    lemma_admissible_members(st.bins, ov, qs, block_size, ov.len() as int);
    lemma_admissible_ok(st.bins, ov, qs, block_size, ov.len() as int);
    assert forall|x: int| 0 <= x < adm.len() implies (#[trigger] adm[x]) < st.bins.len() by {
        assert(adm.contains(adm[x]));
        assert(ov.contains(adm[x]));
        let y = choose|y: int| 0 <= y < ov.len() && ov[y] == adm[x];
    }
    assert(ov.take(ov.len() as int) =~= ov);
    let s1 = close_rejected(st, ov, adm, qs, c, ov.len() as int);
    lemma_close_rejected_ok(st, ov, adm, qs, c, ov.len() as int, n);
    lemma_close_rejected_inv2(st, ov, adm, qs, c, ov.len() as int, k, n);
    lemma_close_rejected_keeps(st, ov, adm, qs, c, ov.len() as int);
    let sel = selected_bin(s1.bins, adm, qs);
    let s2 = if adm.len() == 0 { PartModel { bins: s1.bins.push(empty_bin(n)), ..s1 } } else { s1 };
    assert(state_ok(s2, n)) by {
        if adm.len() == 0 {
            assert forall|b: int| 0 <= b < s2.bins.len() implies bin_shaped(#[trigger] s2.bins[b], n) by {
                if b < s1.bins.len() { assert(s2.bins[b] == s1.bins[b]); }
            }
            assert forall|b: int, q: int| 0 <= b < s2.bins.len() && 0 <= q < s2.bins[b].qubits.len()
                implies (#[trigger] s2.bins[b].qubits[q]) < n by {
                if b < s1.bins.len() { assert(s2.bins[b] == s1.bins[b]); }
            }
        }
    }
    assert(part_inv2(s2, k, n)) by {
        if adm.len() == 0 {
            let e = empty_bin(n);
            assert forall|x: usize| #[trigger] total_count(s2, x) == (if x < k { 1nat } else { 0nat }) by {
                lemma_bins_count_push(s1.bins, e, x, s1.bins.len() as int);
                assert(total_count(s2, x) == total_count(s1, x));
            }
            assert forall|b: int, q: usize| 0 <= b < s2.bins.len() && q < n && #[trigger] is_active(s2.bins[b], q)
                implies s2.active_bin_of[q as int] == Some(b as usize) by {
                if b < s1.bins.len() { assert(s2.bins[b] == s1.bins[b]); } else { assert(s2.bins[b] == e); }
            }
            assert forall|b: int| 0 <= b < s2.bins.len() && (#[trigger] s2.bins[b]).ops.len() > 0
                implies !all_closed(s2.bins[b]) || s2.pending.contains(b as usize) by {
                if b < s1.bins.len() { assert(s2.bins[b] == s1.bins[b]); }
            }
        }
    }
    lemma_first_covering_range(s1.bins, adm, qs, 0);
    assert(sel < s2.bins.len());
    assert forall|x: int| 0 <= x < adm.len() implies (#[trigger] adm[x]) < s2.bins.len() by {}
    let s3 = close_others(s2, adm, sel, qs, c, adm.len() as int);
    assert(adm.take(adm.len() as int) =~= adm);
    lemma_close_others_ok(s2, adm, sel, qs, c, adm.len() as int, n);
    lemma_close_others_inv2(s2, adm, sel, qs, c, adm.len() as int, k, n);
    lemma_close_others_keeps(s2, adm, sel, qs, c, adm.len() as int);
    // no other bin keeps a qubit of the operation open
    assert forall|b: int, q: usize| 0 <= b < s3.bins.len() && b != sel && qs.contains(q) implies !#[trigger] is_active(s3.bins[b], q) by {
        if is_active(s3.bins[b], q) {
            assert(is_active(s2.bins[b], q));
            assert(!adm.contains(b as usize));
            if b < s1.bins.len() {
                assert(s2.bins[b] == s1.bins[b]);
                assert(is_active(st.bins[b], q));
                assert(!ov.contains(b as usize));
                let j = choose|j: int| 0 <= j < qs.len() && qs[j] == q;
                assert(bin_shaped(st.bins[b], n));
                let t = choose|t: int| 0 <= t < st.bins[b].qubits.len() && st.bins[b].qubits[t] == q && st.bins[b].active[t];
                assert(st.bins[b].qubits[t] < n);
                assert(st.active_bin_of[q as int] == Some(b as usize));
                lemma_open_bins_of_contains(st.active_bin_of, qs, qs.len() as int, j, b as usize);
            } else {
                assert(s2.bins[b] == empty_bin(n));
            }
        }
    }
    // the selected bin holds every qubit of the operation open
    let sb = s3.bins[sel as int];
    assert(sb.active.len() == sb.qubits.len()) by { assert(bin_shaped(s3.bins[sel as int], n)); }
    lemma_join_active(sb, qs, c, qs.len() as int);
    assert(qs.take(qs.len() as int) =~= qs);
    assert forall|q: usize| qs.contains(q) && sb.qubits.contains(q) implies is_active(sb, q) by {
        if adm.len() == 0 {
            assert(s2.bins[sel as int] == empty_bin(n));
        } else {
            let f = first_covering(s1.bins, adm, qs, 0);
            let kk = if f < adm.len() { f } else { 0 };
            assert(sel == adm[kk]);
            assert(adm.contains(sel));
            assert(can_accommodate(st.bins[sel as int], qs, block_size));
            let j = choose|j: int| 0 <= j < qs.len() && qs[j] == q;
            assert(st.bins[sel as int].qubits.contains(qs[j]));
            assert(is_active(st.bins[sel as int], q));
            assert(is_active(s1.bins[sel as int], q));
            assert(is_active(s2.bins[sel as int], q));
        }
    }
    let s4 = with_op(s3, sel, qs, i, c);
    let nb = add_op_model(sb, qs, i, c);
    assert(s4.bins =~= s3.bins.update(sel as int, nb));
    assert forall|q: usize| #[trigger] is_active(nb, q) <==> is_active(sb, q) || qs.contains(q) by {
        let jb = join_qubits(sb, qs, c, qs.len() as int);
        assert(is_active(nb, q) == is_active(jb, q)) by {
            if is_active(nb, q) {
                let t = choose|t: int| 0 <= t < nb.qubits.len() && nb.qubits[t] == q && nb.active[t];
                assert(jb.qubits[t] == q && jb.active[t]);
            }
            if is_active(jb, q) {
                let t = choose|t: int| 0 <= t < jb.qubits.len() && jb.qubits[t] == q && jb.active[t];
                assert(nb.qubits[t] == q && nb.active[t]);
            }
        }
    }
    lemma_with_op_ok(s3, sel, qs, i, c, n);
    assert(part_inv2(s4, k + 1, n)) by {
        assert forall|x: usize| #[trigger] total_count(s4, x) == (if x < k + 1 { 1nat } else { 0nat }) by {
            lemma_bins_count_update(s3.bins, sel as int, nb, x, s3.bins.len() as int);
            assert(nb.ops == sb.ops.push(i));
            assert(count_id(nb.ops, x) == count_id(sb.ops, x) + (if i == x { 1nat } else { 0nat })) by {
                assert(nb.ops.drop_last() =~= sb.ops);
            }
            assert(total_count(s3, x) == (if x < k { 1nat } else { 0nat }));
        }
        assert forall|b: int, q: usize| 0 <= b < s4.bins.len() && q < n && #[trigger] is_active(s4.bins[b], q)
            implies s4.active_bin_of[q as int] == Some(b as usize) by {
            if b != sel {
                assert(s4.bins[b] == s3.bins[b]);
                assert(!qs.contains(q));
                assert(s3.active_bin_of[q as int] == Some(b as usize));
            } else {
                if !qs.contains(q) {
                    assert(is_active(sb, q));
                    assert(s3.active_bin_of[q as int] == Some(b as usize));
                }
            }
        }
        assert forall|b: int| 0 <= b < s4.bins.len() && (#[trigger] s4.bins[b]).ops.len() > 0
            implies !all_closed(s4.bins[b]) || s4.pending.contains(b as usize) by {
            if b != sel {
                assert(s4.bins[b] == s3.bins[b]);
            } else {
                assert(qs.contains(qs[0]));
                assert(is_active(nb, qs[0]));
                let t = choose|t: int| 0 <= t < nb.qubits.len() && nb.qubits[t] == qs[0] && nb.active[t];
                assert(nb.active[t]);
            }
        }
    }
    let others = sorted_set(open_bins(s4.active_bin_of, n as int));
    lemma_open_bins_range(s4, n as int, n);
    lemma_sorted_set_members(open_bins(s4.active_bin_of, n as int), s4.bins.len());
    lemma_propagate_inv2(s4, sel, s4.bins[sel as int].qubits, s4.bins[sel as int].blocked, others, others.len() as int, k + 1, n);
}

proof fn lemma_place_one_inv2(st: PartModel, p: int, k: int, n: nat)
    requires
        part_inv2(st, k, n),
        state_ok(st, n),
        0 <= p < st.pending.len(),
    ensures
        part_inv2(place_one(st, p), k, n),
        (forall|b: int| 0 <= b < st.bins.len() ==> all_closed(#[trigger] st.bins[b]))
            ==> (forall|b: int| 0 <= b < place_one(st, p).bins.len() ==> all_closed(#[trigger] place_one(st, p).bins[b])),
{
    let idx = st.pending[p];
    let b = st.bins[idx as int];
    assert(idx < st.bins.len());
    let m = merge_blocks(st.placed, st.rear_of, b.ops, b.qubits);
    let r = place_one(st, p);
    let emptied = BinModel { qubits: Seq::empty(), active: Seq::empty(), starts: Seq::empty(), ends: Seq::empty(), ops: Seq::empty(), ..b };
    assert(r.bins =~= st.bins.update(idx as int, emptied));
    let v = Some(PlacedModel { qubits: sorted_set(m.1), ops: m.0 });
    assert forall|x: usize| #[trigger] total_count(r, x) == (if x < k { 1nat } else { 0nat }) by {
        lemma_bins_count_update(st.bins, idx as int, emptied, x, st.bins.len() as int);
        lemma_merge_count(st.placed, st.rear_of, b.ops, b.qubits, x);
        lemma_placed_count_push(m.2, v, x, m.2.len() as int);
        assert(count_id(emptied.ops, x) == 0);
        assert(total_count(r, x) == total_count(st, x));
    }
    assert forall|bb: int, q: usize| 0 <= bb < r.bins.len() && q < n && #[trigger] is_active(r.bins[bb], q)
        implies r.active_bin_of[q as int] == Some(bb as usize) by {
        if bb == idx { assert(r.bins[bb] == emptied); } else { assert(r.bins[bb] == st.bins[bb]); }
    }
    assert forall|bb: int| 0 <= bb < r.bins.len() && (#[trigger] r.bins[bb]).ops.len() > 0
        implies !all_closed(r.bins[bb]) || r.pending.contains(bb as usize) by {
        if bb == idx {
            assert(r.bins[bb] == emptied);
        } else {
            assert(r.bins[bb] == st.bins[bb]);
            if st.pending.contains(bb as usize) {
                let i = choose|i: int| 0 <= i < st.pending.len() && st.pending[i] == bb as usize;
                assert(i != p);
                if i < p { assert(r.pending[i] == bb as usize); } else { assert(r.pending[i - 1] == bb as usize); }
            }
        }
    }
    if forall|bb: int| 0 <= bb < st.bins.len() ==> all_closed(#[trigger] st.bins[bb]) {
        assert forall|bb: int| 0 <= bb < r.bins.len() implies all_closed(#[trigger] r.bins[bb]) by {
            if bb != idx { assert(r.bins[bb] == st.bins[bb]); }
        }
    }
}

proof fn lemma_flush_inv2(st: PartModel, k: int, n: nat)
    requires
        part_inv2(st, k, n),
        state_ok(st, n),
    ensures
        part_inv2(flush(st), k, n),
        (forall|b: int| 0 <= b < st.bins.len() ==> all_closed(#[trigger] st.bins[b]))
            ==> (forall|b: int| 0 <= b < flush(st).bins.len() ==> all_closed(#[trigger] flush(st).bins[b])),
    decreases st.pending.len(),
{
    let p = ready_from(st.bins, st.pending, st.dividing_line, 0);
    if 0 <= p < st.pending.len() {
        lemma_place_one_ok(st, p, n);
        lemma_place_one_inv2(st, p, k, n);
        lemma_flush_inv2(place_one(st, p), k, n);
    }
}

proof fn lemma_run_inv2(ops: Seq<Seq<usize>>, n: nat, block_size: usize, k: int)
    requires
        qubits_below(ops, n),
        0 <= k <= ops.len(),
        ops.len() <= usize::MAX,
        forall|i: int| 0 <= i < ops.len() ==> (#[trigger] ops[i]).len() > 0,
    ensures
        part_inv2(run_upto(ops, n, block_size, k), k, n),
        state_ok(run_upto(ops, n, block_size, k), n),
        run_upto(ops, n, block_size, k).bins.len() <= k,
    decreases k,
{
    lemma_cycles_bounded(ops, n, ops.len() as int);
    lemma_run_inv(ops, n, block_size, k);
    if k == 0 {
        let st = run_upto(ops, n, block_size, 0);
        assert forall|x: usize| #[trigger] total_count(st, x) == (if x < 0 { 1nat } else { 0nat }) by {}
    } else {
        lemma_run_inv2(ops, n, block_size, k - 1);
        lemma_run_inv(ops, n, block_size, k - 1);
        let prev = run_upto(ops, n, block_size, k - 1);
        let cy = cycles_upto(ops, n, ops.len() as int);
        let qs = ops[k - 1];
        assert forall|j: int| 0 <= j < qs.len() implies (#[trigger] qs[j]) < n by {
            assert(ops[k - 1][j] < n);
        }
        let i = (k - 1) as usize;
        assert(i as int == k - 1);
        assert(qs.len() > 0);
        lemma_op_step_inv2(prev, qs, i, cy.cycles[k - 1], block_size, n);
        lemma_op_step_inv(prev, qs, i, cy.cycles[k - 1], block_size, n, ops);
        lemma_flush_inv2(op_step(prev, qs, i, cy.cycles[k - 1], block_size, n), k, n);
    }
}

/// The operations of the windows, listed one after another.
pub open spec fn window_ops(ws: Seq<PlacedModel>) -> Seq<usize>
    decreases ws.len(),
{
    if ws.len() == 0 { Seq::empty() } else { window_ops(ws.drop_last()) + ws.last().ops }
}

proof fn lemma_window_ops_count(placed: Seq<Option<PlacedModel>>, x: usize, m: int)
    requires
        0 <= m <= placed.len(),
    ensures
        count_id(window_ops(placed_blocks(placed, m)), x) == placed_count(placed, x, m),
    decreases m,
{
    if m > 0 {
        lemma_window_ops_count(placed, x, m - 1);
        let prev = placed_blocks(placed, m - 1);
        if let Some(pb) = placed[m - 1] {
            assert(placed_blocks(placed, m).drop_last() =~= prev);
            lemma_count_id_concat(window_ops(prev), pb.ops, x);
        }
    }
}

proof fn lemma_bins_count_none(bins: Seq<BinModel>, x: usize, m: int)
    requires
        0 <= m <= bins.len(),
        forall|b: int| 0 <= b < bins.len() ==> (#[trigger] bins[b]).ops.len() == 0,
    ensures
        bins_count(bins, x, m) == 0,
    decreases m,
{
    if m > 0 {
        lemma_bins_count_none(bins, x, m - 1);
        assert(bins[m - 1].ops.len() == 0);
    }
}

/// No operation is in two windows or twice in one: the windows' operations,
/// listed one after another, hold each operation of the circuit at most once
/// and nothing else. And where no bin is left waiting to be placed at the
/// end (the condition the partitioner asserts of its own run), they hold
/// every operation exactly once: the windows are a rearrangement of the
/// whole circuit.
pub proof fn lemma_partition_complete(ops: Seq<Seq<usize>>, n: nat, block_size: usize)
    requires
        qubits_below(ops, n),
        ops.len() <= usize::MAX,
        forall|i: int| 0 <= i < ops.len() ==> (#[trigger] ops[i]).len() > 0,
    ensures
        forall|x: usize| #[trigger] count_id(window_ops(partitioned(ops, n, block_size)), x) <= (if x < ops.len() { 1nat } else { 0nat }),
        final_state(ops, n, block_size).pending.len() == 0 ==> forall|x: usize|
            #[trigger] count_id(window_ops(partitioned(ops, n, block_size)), x) == (if x < ops.len() { 1nat } else { 0nat }),
{
    let k = ops.len() as int;
    let cy = cycles_upto(ops, n, k);
    lemma_run_inv2(ops, n, block_size, k);
    let st = run_upto(ops, n, block_size, k);
    let fc = max_of(cy.next_cycle, n as int);
    let still = sorted_set(open_bins(st.active_bin_of, n as int));
    lemma_open_bins_range(st, n as int, n);
    lemma_sorted_set_members(open_bins(st.active_bin_of, n as int), st.bins.len());
    lemma_sorted_set(open_bins(st.active_bin_of, n as int));
    lemma_close_all_ok(st, still, fc, still.len() as int, n);
    lemma_close_all_inv2(st, still, fc, still.len() as int, k, n);
    let closed = close_all(st, still, fc, still.len() as int);
    assert(still.take(still.len() as int) =~= still);
    // nothing is open any more
    assert forall|b: int| 0 <= b < closed.bins.len() implies all_closed(#[trigger] closed.bins[b]) by {
        assert forall|j: int| 0 <= j < closed.bins[b].active.len() implies !#[trigger] closed.bins[b].active[j] by {
            if closed.bins[b].active[j] {
                let q = closed.bins[b].qubits[j];
                assert(bin_shaped(closed.bins[b], n));
                assert(is_active(closed.bins[b], q));
                assert(is_active(st.bins[b], q));
                assert(closed.bins[b].qubits[j] < n);
                assert(st.active_bin_of[q as int] == Some(b as usize));
                lemma_open_bins_contains(st.active_bin_of, n as int, q as int, b as usize);
                assert(still.contains(b as usize));
            }
        }
    }
    lemma_flush_inv2(closed, k, n);
    let fin = flush(closed);
    assert(fin == final_state(ops, n, block_size));
    let ws = partitioned(ops, n, block_size);
    assert forall|x: usize| #[trigger] count_id(window_ops(ws), x) <= (if x < k { 1nat } else { 0nat }) by {
        lemma_window_ops_count(fin.placed, x, fin.placed.len() as int);
        assert(total_count(fin, x) == (if x < k { 1nat } else { 0nat }));
    }
    if fin.pending.len() == 0 {
        assert forall|b: int| 0 <= b < fin.bins.len() implies (#[trigger] fin.bins[b]).ops.len() == 0 by {
            if fin.bins[b].ops.len() > 0 {
                assert(all_closed(fin.bins[b]));
                assert(fin.pending.contains(b as usize));
            }
        }
        assert forall|x: usize| #[trigger] count_id(window_ops(ws), x) == (if x < k { 1nat } else { 0nat }) by {
            lemma_window_ops_count(fin.placed, x, fin.placed.len() as int);
            lemma_bins_count_none(fin.bins, x, fin.bins.len() as int);
            assert(total_count(fin, x) == (if x < k { 1nat } else { 0nat }));
        }
    }
}

/// Where `q` stands in `qs`.
pub open spec fn position_of(qs: Seq<usize>, q: usize) -> int {
    choose|i: int| 0 <= i < qs.len() && qs[i] == q
}

/// `out` is the circuit of blocks that the windows `ws` describe over the
/// operations of `c`: one block per window, on the window's qubits, whose
/// inner circuit applies the window's operations in order, each renamed onto
/// the window (qubit `q` becomes its position among the window's qubits).
pub open spec fn windows_assembled(c: Circuit, out: Circuit, ws: Seq<PlacedModel>) -> bool {
    &&& out.n_qubits == c.n_qubits
    &&& out.ops@.len() == ws.len()
    &&& forall|w: int| 0 <= w < ws.len() ==> {
        &&& (#[trigger] out.ops@[w]).gate is Block
        &&& out.ops@[w].qubits@ == ws[w].qubits
        &&& out.ops@[w].gate->Block_0.n_qubits == ws[w].qubits.len()
        &&& ops_view(*out.ops@[w].gate->Block_0) == ws[w].ops.map_values(|j: usize|
            (c.ops@[j as int].gate, c.ops@[j as int].qubits@.map_values(|q: usize| position_of(ws[w].qubits, q) as usize)))
    }
}

/// The position of `q` among the increasing `qs`, which hold it.
fn local_position(qs: &Vec<usize>, q: usize) -> (i: usize)
    requires
        qs@.contains(q),
        forall|a: int, b: int| 0 <= a < b < qs@.len() ==> qs@[a] < qs@[b],
    ensures
        i == position_of(qs@, q),
        i < qs@.len(),
{
    let mut i: usize = 0;
    while i < qs.len()
        invariant
            i <= qs@.len(),
            qs@.contains(q),
            forall|j: int| 0 <= j < i ==> qs@[j] != q,
            forall|a: int, b: int| 0 <= a < b < qs@.len() ==> qs@[a] < qs@[b],
        decreases qs@.len() - i,
    {
        if qs[i] == q {
            let ghost p = position_of(qs@, q);
            assert(0 <= p < qs@.len() && qs@[p] == q);
            assert(p == i as int) by {
                if p < i { } else if p > i { assert(qs@[i as int] < qs@[p]); }
            }
            return i;
        }
        i += 1;
    }
    let ghost w = choose|j: int| 0 <= j < qs@.len() && qs@[j] == q;
    assert(false);
    0
}

/// Partitions the circuit into blocks of at most `block_size` qubits (or of
/// one wider operation) for windowed resynthesis: the windows that
/// `partition_windows` finds, each turned into a block whose inner circuit
/// holds the window's operations renamed onto the window's qubits. The input
/// holds no blocks.
pub fn partition(circuit: &Circuit, block_size: usize) -> (out: Circuit)
    requires
        crate::qgate::qubits_below(*circuit),
        no_blocks(ops_view(*circuit)),
    ensures
        windows_assembled(*circuit, out, partitioned(circuit_qubits(*circuit), circuit.n_qubits as nat, block_size)),
        blocks_fit(out),
        (forall|i: int| 0 <= i < circuit.ops@.len() ==> (#[trigger] circuit.ops@[i]).qubits@.len() > 0) ==> {
            let ws = window_ops(partitioned(circuit_qubits(*circuit), circuit.n_qubits as nat, block_size));
            &&& forall|x: usize| #[trigger] count_id(ws, x) <= (if x < circuit.ops@.len() { 1nat } else { 0nat })
            &&& final_state(circuit_qubits(*circuit), circuit.n_qubits as nat, block_size).pending.len() == 0
                ==> forall|x: usize| #[trigger] count_id(ws, x) == (if x < circuit.ops@.len() { 1nat } else { 0nat })
        },
{
    let ghost qs = circuit_qubits(*circuit);
    let ghost n = circuit.n_qubits as nat;
    let mut lists: Vec<Vec<usize>> = Vec::new();
    let mut k: usize = 0;
    while k < circuit.ops.len()
        invariant
            k <= circuit.ops@.len(),
            qubit_lists(lists@) == qs.subrange(0, k as int),
            qs == circuit_qubits(*circuit),
        decreases circuit.ops@.len() - k,
    {
        assert(qs[k as int] == circuit.ops@[k as int].qubits@);
        let ghost before = lists@;
        lists.push(crate::qgate::copy_qubits(&circuit.ops[k].qubits));
        assert(qubit_lists(lists@) =~= qubit_lists(before).push(qs[k as int]));
        k += 1;
    }
    assert(qs.subrange(0, qs.len() as int) =~= qs);
    assert(qubits_below(qs, n)) by {
        assert forall|i: int, j: int| 0 <= i < qs.len() && 0 <= j < qs[i].len() implies (#[trigger] qs[i][j]) < n by {
            assert(qs[i] == circuit.ops@[i].qubits@);
            assert(circuit.ops@[i].qubits@[j] < circuit.n_qubits);
        }
    }
    let windows = partition_windows(circuit.n_qubits, &lists, block_size);
    let ghost ws = partitioned(qs, n, block_size);
    proof {
        assert(qs.len() == circuit.ops@.len());
        assert(circuit.ops@.len() == circuit.ops.len());
        lemma_partition_windows(qs, n, block_size);
        if forall|i: int| 0 <= i < circuit.ops@.len() ==> (#[trigger] circuit.ops@[i]).qubits@.len() > 0 {
            assert forall|i: int| 0 <= i < qs.len() implies (#[trigger] qs[i]).len() > 0 by {
                assert(qs[i] == circuit.ops@[i].qubits@);
            }
            lemma_partition_complete(qs, n, block_size);
        }
    }
    let ghost cap = size_cap(qs, block_size);
    let mut out = Circuit::new(circuit.n_qubits);
    let mut w: usize = 0;
    while w < windows.len()
        invariant
            w <= windows@.len(),
            windows@.map_values(|x: Window| window_view(x)) == ws,
            ws == partitioned(qs, n, block_size),
            qs == circuit_qubits(*circuit),
            no_blocks(ops_view(*circuit)),
            forall|j: int| 0 <= j < ws.len() ==> placed_ok(#[trigger] ws[j], qs, cap),
            windows_assembled(*circuit, out, ws.subrange(0, w as int)),
            crate::qgate::blocks_fit_upto(out, w as int),
            out.ops@.len() == w,
        decreases windows@.len() - w,
    {
        let ghost prev = out.ops@;
        let ghost old_out = out;
        assert(ws.len() == windows@.len());
        assert(windows@.map_values(|x: Window| window_view(x))[w as int] == window_view(windows@[w as int]));
        let win = &windows[w];
        let ghost wq = win.qubits@;
        assert(placed_ok(ws[w as int], qs, cap));
        let mut inner = Circuit::new(win.qubits.len());
        let mut t: usize = 0;
        while t < win.ops.len()
            invariant
                t <= win.ops@.len(),
                wq == win.qubits@,
                ws[w as int] == window_view(*win),
                placed_ok(ws[w as int], qs, cap),
                qs == circuit_qubits(*circuit),
                no_blocks(ops_view(*circuit)),
                inner.n_qubits == win.qubits@.len(),
                ops_view(inner) == win.ops@.subrange(0, t as int).map_values(|j: usize|
                    (circuit.ops@[j as int].gate, circuit.ops@[j as int].qubits@.map_values(|q: usize| position_of(wq, q) as usize))),
                crate::qgate::qubits_below(inner),
                no_blocks(ops_view(inner)),
            decreases win.ops@.len() - t,
        {
            let j = win.ops[t];
            assert(ws[w as int].ops[t as int] == win.ops@[t as int]);
            assert(ws[w as int].qubits == wq);
            assert(op_within(qs, win.ops@[t as int], wq));
            assert(qs[j as int] == circuit.ops@[j as int].qubits@);
            assert(ops_view(*circuit)[j as int] == op_view(circuit.ops@[j as int]));
            let op = &circuit.ops[j];
            let mut local: Vec<usize> = Vec::new();
            let mut r: usize = 0;
            while r < op.qubits.len()
                invariant
                    r <= op.qubits@.len(),
                    op.qubits@ == qs[j as int],
                    forall|a: int| 0 <= a < op.qubits@.len() ==> wq.contains(#[trigger] op.qubits@[a]),
                    wq == win.qubits@,
                    forall|a: int, b: int| 0 <= a < b < wq.len() ==> wq[a] < wq[b],
                    local@ == op.qubits@.subrange(0, r as int).map_values(|q: usize| position_of(wq, q) as usize),
                    forall|a: int| 0 <= a < local@.len() ==> (#[trigger] local@[a]) < wq.len(),
                decreases op.qubits@.len() - r,
            {
                let p = local_position(&win.qubits, op.qubits[r]);
                local.push(p);
                r += 1;
                assert(local@ =~= op.qubits@.subrange(0, r as int).map_values(|q: usize| position_of(wq, q) as usize));
            }
            assert(op.qubits@.subrange(0, op.qubits@.len() as int) =~= op.qubits@);
            let g = copy_gate(&op.gate);
            let ghost before = ops_view(inner);
            let ghost before_ops = inner.ops@;
            inner.ops.push(Operation { gate: g, qubits: local });
            t += 1;
            proof {
                let f = |j: usize| (circuit.ops@[j as int].gate, circuit.ops@[j as int].qubits@.map_values(|q: usize| position_of(wq, q) as usize));
                assert(ops_view(inner) =~= before.push((g, local@)));
                assert(win.ops@.subrange(0, t as int).map_values(f) =~= win.ops@.subrange(0, t - 1).map_values(f).push(f(j)));
                assert forall|i: int, a: int| 0 <= i < inner.ops@.len() && 0 <= a < inner.ops@[i].qubits@.len()
                    implies (#[trigger] inner.ops@[i].qubits@[a]) < inner.n_qubits by {
                    if i < before_ops.len() { assert(inner.ops@[i] == before_ops[i]); }
                }
                assert forall|i: int| 0 <= i < ops_view(inner).len() implies !((#[trigger] ops_view(inner)[i]).0 is Block) by {
                    if i < before.len() { assert(ops_view(inner)[i] == before[i]); }
                }
            }
        }
        assert(win.ops@.subrange(0, win.ops@.len() as int) =~= win.ops@);
        proof { crate::qgate::lemma_flat_blocks_fit(inner, inner.ops@.len() as int); }
        let wqs = crate::qgate::copy_qubits(&win.qubits);
        out.ops.push(Operation { gate: Gate::Block(Box::new(inner)), qubits: wqs });
        w += 1;
        proof {
            let ws2 = ws.subrange(0, w as int);
            assert forall|a: int| 0 <= a < ws2.len() implies {
                &&& (#[trigger] out.ops@[a]).gate is Block
                &&& out.ops@[a].qubits@ == ws2[a].qubits
                &&& out.ops@[a].gate->Block_0.n_qubits == ws2[a].qubits.len()
                &&& ops_view(*out.ops@[a].gate->Block_0) == ws2[a].ops.map_values(|j: usize|
                    (circuit.ops@[j as int].gate, circuit.ops@[j as int].qubits@.map_values(|q: usize| position_of(ws2[a].qubits, q) as usize)))
            } by {
                if a < w - 1 {
                    assert(out.ops@[a] == prev[a]);
                    assert(ws2[a] == ws.subrange(0, w - 1)[a]);
                }
            }
            assert(out.ops@[w - 1] == Operation { gate: Gate::Block(Box::new(inner)), qubits: wqs });
            crate::qgate::lemma_blocks_fit_same_prefix(old_out, out, w - 1);
        }
    }
    assert(ws.subrange(0, ws.len() as int) =~= ws);
    out
}

} // verus!
