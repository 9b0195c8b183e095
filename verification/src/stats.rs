//! Gate counts and depths of a compiled circuit, and the line that reports
//! them.
use vstd::prelude::*;
use crate::text::{decimal, push_str, usize_to_string};
use crate::qgate::{is_clifford_gate, Circuit, Gate, Operation};

verus! {

/// Size, gate counts and depths of a circuit.
#[derive(Debug, Clone, Copy, PartialEq, Eq, Structural)]
pub struct Stats {
    pub qubits: usize,
    pub gates: usize,
    pub depth: usize,
    pub t_count: usize,
    pub t_depth: usize,
    pub cx_count: usize,
    pub clifford_count: usize,
}

/// The report of a compilation:
/// `  <q> qubits, <g> gates -> <g'> gates (T=.., clifford=.., cx=.., depth=.., T-depth=..)`,
/// with the qubit and gate counts before and the figures after.
pub open spec fn report_text(before: Stats, after: Stats) -> Seq<char> {
    "  "@ + decimal(before.qubits as nat) + " qubits, "@ + decimal(before.gates as nat) + " gates -> "@
        + decimal(after.gates as nat) + " gates (T="@ + decimal(after.t_count as nat) + ", clifford="@
        + decimal(after.clifford_count as nat) + ", cx="@ + decimal(after.cx_count as nat) + ", depth="@
        + decimal(after.depth as nat) + ", T-depth="@ + decimal(after.t_depth as nat) + ")"@
}

/// Appends the decimal form of `n`.
fn push_usize(s: &mut String, n: usize)
    ensures
        final(s)@ == old(s)@ + decimal(n as nat),
{
    let t = usize_to_string(n);
    push_str(s, t.as_str());
}

/// The one-line report of a compilation, as `report_text` gives it.
pub fn report_line(before: &Stats, after: &Stats) -> (s: String)
    ensures
        s@ == report_text(*before, *after),
{
    let mut s = String::new();
    push_str(&mut s, "  ");
    push_usize(&mut s, before.qubits);
    push_str(&mut s, " qubits, ");
    push_usize(&mut s, before.gates);
    push_str(&mut s, " gates -> ");
    push_usize(&mut s, after.gates);
    push_str(&mut s, " gates (T=");
    push_usize(&mut s, after.t_count);
    push_str(&mut s, ", clifford=");
    push_usize(&mut s, after.clifford_count);
    push_str(&mut s, ", cx=");
    push_usize(&mut s, after.cx_count);
    push_str(&mut s, ", depth=");
    push_usize(&mut s, after.depth);
    push_str(&mut s, ", T-depth=");
    push_usize(&mut s, after.t_depth);
    push_str(&mut s, ")");
    assert(s@ =~= report_text(*before, *after));
    s
}

/// A T or T-dagger gate.
pub open spec fn is_t_gate(g: Gate) -> bool {
    g is T || g is Tdg
}

/// The largest counter among the qubits `qs` (0 for none).
pub open spec fn max_at(c: Seq<int>, qs: Seq<usize>) -> int
    decreases qs.len(),
{
    if qs.len() == 0 {
        0
    } else {
        let m = max_at(c, qs.drop_last());
        let v = c[qs.last() as int];
        if v > m { v } else { m }
    }
}

/// The counters as integers.
pub open spec fn ints(c: Seq<usize>) -> Seq<int> {
    c.map_values(|x: usize| x as int)
}

/// `qs` holds the qubit `x`.
pub open spec fn has_q(qs: Seq<usize>, x: int) -> bool {
    exists|i: int| 0 <= i < qs.len() && #[trigger] qs[i] as int == x
}

proof fn lemma_has_q_push(s: Seq<usize>, a: usize)
    ensures
        forall|x: int| has_q(s.push(a), x) <==> (has_q(s, x) || x == a as int),
{
    assert forall|x: int| has_q(s.push(a), x) <==> (has_q(s, x) || x == a as int) by {
        if has_q(s.push(a), x) {
            let k = choose|k: int| 0 <= k < s.push(a).len() && #[trigger] s.push(a)[k] as int == x;
            if k < s.len() {
                assert(s[k] as int == x);
            }
        }
        if has_q(s, x) {
            let k = choose|k: int| 0 <= k < s.len() && #[trigger] s[k] as int == x;
            assert(s.push(a)[k] as int == x);
        }
        if x == a as int {
            assert(s.push(a)[s.len() as int] as int == x);
        }
    }
}

/// The counters with every qubit of `qs` set to `v`.
pub open spec fn write_at(c: Seq<int>, qs: Seq<usize>, v: int) -> Seq<int> {
    Seq::new(c.len(), |q: int| if has_q(qs, q) { v } else { c[q] })
}

/// The per-qubit running depth counters after the first `k` operations: each
/// operation takes the largest counter over its qubits plus one (for the
/// T-depth, plus one only for a T or T-dagger gate) and writes it back to all
/// its qubits.
pub open spec fn counters(ops: Seq<Operation>, n: nat, k: int, t_only: bool) -> Seq<int>
    decreases k,
{
    if k <= 0 {
        Seq::new(n, |q: int| 0int)
    } else {
        let c = counters(ops, n, k - 1, t_only);
        let op = ops[k - 1];
        let inc: int = if t_only { if is_t_gate(op.gate) { 1 } else { 0 } } else { 1 };
        write_at(c, op.qubits@, max_at(c, op.qubits@) + inc)
    }
}

/// The largest of the counters (0 for none).
pub open spec fn max_all(c: Seq<int>) -> int
    decreases c.len(),
{
    if c.len() == 0 { 0 } else { let m = max_all(c.drop_last()); if c.last() > m { c.last() } else { m } }
}

/// Number of the first `k` operations whose kind satisfies `f`.
pub open spec fn count_kind(ops: Seq<Operation>, k: int, f: spec_fn(Gate) -> bool) -> nat
    decreases k,
{
    if k <= 0 { 0 } else { count_kind(ops, k - 1, f) + (if f(ops[k - 1].gate) { 1nat } else { 0nat }) }
}

proof fn lemma_counters_bounds(ops: Seq<Operation>, n: nat, k: int, t_only: bool)
    requires
        0 <= k <= ops.len(),
        forall|kk: int, i: int| 0 <= kk < ops.len() && 0 <= i < ops[kk].qubits@.len() ==> (#[trigger] ops[kk].qubits@[i]) < n,
    ensures
        counters(ops, n, k, t_only).len() == n,
        forall|q: int| 0 <= q < n ==> 0 <= #[trigger] counters(ops, n, k, t_only)[q] <= k,
    decreases k,
{
    if k > 0 {
        lemma_counters_bounds(ops, n, k - 1, t_only);
        let c = counters(ops, n, k - 1, t_only);
        assert forall|i: int| 0 <= i < ops[k - 1].qubits@.len() implies (#[trigger] ops[k - 1].qubits@[i] as int) < c.len() by {
            assert(ops[k - 1].qubits@[i] < n);
        }
        lemma_max_at_bounds(c, ops[k - 1].qubits@, k - 1);
    }
}

proof fn lemma_max_at_bounds(c: Seq<int>, qs: Seq<usize>, b: int)
    requires
        forall|q: int| 0 <= q < c.len() ==> 0 <= #[trigger] c[q] <= b,
        forall|i: int| 0 <= i < qs.len() ==> (#[trigger] qs[i] as int) < c.len(),
        b >= 0,
    ensures
        0 <= max_at(c, qs) <= b,
    decreases qs.len(),
{
    if qs.len() > 0 {
        lemma_max_at_bounds(c, qs.drop_last(), b);
        assert(qs[qs.len() - 1] == qs.last());
    }
}

proof fn lemma_max_all_bounds(c: Seq<int>, b: int)
    requires
        forall|q: int| 0 <= q < c.len() ==> 0 <= #[trigger] c[q] <= b,
        b >= 0,
    ensures
        0 <= max_all(c) <= b,
    decreases c.len(),
{
    if c.len() > 0 {
        lemma_max_all_bounds(c.drop_last(), b);
        assert(c[c.len() - 1] == c.last());
    }
}

/// The largest counter among `qubits`.
fn max_counter(c: &Vec<usize>, qubits: &Vec<usize>) -> (m: usize)
    requires
        forall|i: int| 0 <= i < qubits@.len() ==> (#[trigger] qubits@[i]) < c@.len(),
    ensures
        m == max_at(ints(c@), qubits@),
{
    let ghost ci = ints(c@);
    let mut m: usize = 0;
    let mut j: usize = 0;
    while j < qubits.len()
        invariant
            j <= qubits@.len(),
            ci == ints(c@),
            forall|i: int| 0 <= i < qubits@.len() ==> (#[trigger] qubits@[i]) < c@.len(),
            m == max_at(ci, qubits@.take(j as int)),
        decreases qubits@.len() - j,
    {
        proof {
            assert(qubits@.take(j + 1).drop_last() =~= qubits@.take(j as int));
            assert(qubits@.take(j + 1).last() == qubits@[j as int]);
        }
        let v = c[qubits[j]];
        if v > m {
            m = v;
        }
        j += 1;
    }
    proof {
        assert(qubits@.take(j as int) =~= qubits@);
    }
    m
}

/// Sets the counter of every qubit of `qubits` to `v`.
fn write_counters(c: &mut Vec<usize>, qubits: &Vec<usize>, v: usize)
    requires
        forall|i: int| 0 <= i < qubits@.len() ==> (#[trigger] qubits@[i]) < old(c)@.len(),
    ensures
        final(c)@.len() == old(c)@.len(),
        ints(final(c)@) == write_at(ints(old(c)@), qubits@, v as int),
{
    let ghost c0 = ints(c@);
    let mut j: usize = 0;
    while j < qubits.len()
        invariant
            j <= qubits@.len(),
            c@.len() == c0.len(),
            c0 == ints(old(c)@),
            forall|i: int| 0 <= i < qubits@.len() ==> (#[trigger] qubits@[i]) < c0.len(),
            ints(c@) == write_at(c0, qubits@.take(j as int), v as int),
        decreases qubits@.len() - j,
    {
        let q = qubits[j];
        let ghost before = c@;
        c.set(q, v);
        proof {
            let t0 = qubits@.take(j as int);
            let t1 = qubits@.take(j + 1);
            assert(t1 =~= t0.push(q));
            lemma_has_q_push(t0, q);
            assert forall|x: int| 0 <= x < c0.len() implies #[trigger] ints(c@)[x] == write_at(c0, t1, v as int)[x] by {
                assert(has_q(t1, x) == has_q(t0.push(q), x));
                assert(ints(before)[x] == write_at(c0, t0, v as int)[x]);
                if x != q as int {
                    assert(c@[x] == before[x]);
                } else {
                    assert(c@[x] == v);
                    assert(has_q(t1, x));
                }
            }
            assert(ints(c@) =~= write_at(c0, t1, v as int));
        }
        j += 1;
    }
    proof {
        assert(qubits@.take(j as int) =~= qubits@);
    }
}

/// Gate counts and depths of a circuit: depth and T-depth by per-qubit
/// running counters (see `counters`), the largest counter at the end being
/// the depth.
pub fn compute_stats(circuit: &Circuit) -> (s: Stats)
    requires
        crate::qgate::qubits_below(*circuit),
    ensures
        s.qubits == circuit.n_qubits,
        s.gates == circuit.ops@.len(),
        s.depth == max_all(counters(circuit.ops@, circuit.n_qubits as nat, circuit.ops@.len() as int, false)),
        s.t_depth == max_all(counters(circuit.ops@, circuit.n_qubits as nat, circuit.ops@.len() as int, true)),
        s.t_count == count_kind(circuit.ops@, circuit.ops@.len() as int, |g: Gate| is_t_gate(g)),
        s.cx_count == count_kind(circuit.ops@, circuit.ops@.len() as int, |g: Gate| g is Cx),
        s.clifford_count == count_kind(circuit.ops@, circuit.ops@.len() as int, |g: Gate| is_clifford_gate(g)),
{
    let n_qubits = circuit.n_qubits;
    let ops = &circuit.ops;
    let ghost n = n_qubits as nat;
    let mut depth_counters: Vec<usize> = vec![0usize; n_qubits];
    let mut t_depth_counters: Vec<usize> = vec![0usize; n_qubits];
    let mut t_count: usize = 0;
    let mut cx_count: usize = 0;
    let mut clifford_count: usize = 0;
    proof {
        assert(ints(depth_counters@) =~= counters(ops@, n, 0, false));
        assert(ints(t_depth_counters@) =~= counters(ops@, n, 0, true));
    }
    let mut k: usize = 0;
    while k < ops.len()
        invariant
            k <= ops@.len(),
            n == n_qubits,
            forall|kk: int, i: int| 0 <= kk < ops@.len() && 0 <= i < ops@[kk].qubits@.len()
                ==> (#[trigger] ops@[kk].qubits@[i]) < n_qubits,
            depth_counters@.len() == n_qubits,
            t_depth_counters@.len() == n_qubits,
            ints(depth_counters@) == counters(ops@, n, k as int, false),
            ints(t_depth_counters@) == counters(ops@, n, k as int, true),
            t_count == count_kind(ops@, k as int, |g: Gate| is_t_gate(g)),
            cx_count == count_kind(ops@, k as int, |g: Gate| g is Cx),
            clifford_count == count_kind(ops@, k as int, |g: Gate| is_clifford_gate(g)),
            t_count <= k,
            cx_count <= k,
            clifford_count <= k,
        decreases ops@.len() - k,
    {
        let op = &ops[k];
        let is_t = match op.gate {
            Gate::T | Gate::Tdg => true,
            _ => false,
        };
        if is_t {
            t_count += 1;
        }
        let is_cx = match op.gate {
            Gate::Cx => true,
            _ => false,
        };
        if is_cx {
            cx_count += 1;
        }
        if op.gate.is_clifford() {
            clifford_count += 1;
        }
        proof {
            assert forall|i: int| 0 <= i < op.qubits@.len() implies (#[trigger] op.qubits@[i]) < depth_counters@.len() by {
                assert(ops@[k as int].qubits@[i] < n_qubits);
            }
            lemma_counters_bounds(ops@, n, k as int, false);
            lemma_counters_bounds(ops@, n, k as int, true);
            lemma_max_at_bounds(counters(ops@, n, k as int, false), op.qubits@, k as int);
            lemma_max_at_bounds(counters(ops@, n, k as int, true), op.qubits@, k as int);
        }
        let max_depth = max_counter(&depth_counters, &op.qubits);
        let new_depth = max_depth + 1;
        write_counters(&mut depth_counters, &op.qubits, new_depth);
        let max_t_depth = max_counter(&t_depth_counters, &op.qubits);
        let new_t_depth = max_t_depth + if is_t { 1 } else { 0 };
        write_counters(&mut t_depth_counters, &op.qubits, new_t_depth);
        k += 1;
    }
    proof {
        lemma_counters_bounds(ops@, n, ops@.len() as int, false);
        lemma_counters_bounds(ops@, n, ops@.len() as int, true);
    }
    let depth = max_counter_all(&depth_counters);
    let t_depth = max_counter_all(&t_depth_counters);
    Stats {
        qubits: n_qubits,
        gates: ops.len(),
        depth,
        t_count,
        t_depth,
        cx_count,
        clifford_count,
    }
}

/// The largest of the counters (0 for none).
fn max_counter_all(c: &Vec<usize>) -> (m: usize)
    ensures
        m == max_all(ints(c@)),
{
    let ghost ci = ints(c@);
    let mut m: usize = 0;
    let mut j: usize = 0;
    while j < c.len()
        invariant
            j <= c@.len(),
            ci == ints(c@),
            m == max_all(ci.take(j as int)),
        decreases c@.len() - j,
    {
        proof {
            assert(ci.take(j + 1).drop_last() =~= ci.take(j as int));
            assert(ci.take(j + 1).last() == ci[j as int]);
        }
        if c[j] > m {
            m = c[j];
        }
        j += 1;
    }
    proof {
        assert(ci.take(j as int) =~= ci);
    }
    m
}

} // verus!
