//! Stage 1 of the Clifford+T pipeline: the consecutive single-qubit gates on
//! each qubit are composed into one block, a run being cut by any gate on
//! that qubit that is not a single-qubit gate.
//!
//! Only the qubits of the operations decide the grouping, so operations are
//! named by their index in the circuit and only their qubit lists are read.
use vstd::prelude::*;
use crate::qgate::{copy_gate, copy_qubits, gate_count, gate_count_upto, lemma_flat_counts, no_blocks, op_view, ops_view, Circuit, Gate, Operation};

verus! {

/// One entry of a grouped circuit.
#[derive(Debug, Clone, PartialEq, Eq)]
pub enum GroupedOp {
    /// A run of single-qubit operations on `qubit`, by index, in order.
    Block { qubit: usize, ops: Vec<usize> },
    /// An operation that is not a single-qubit gate, by index, passed through.
    Op(usize),
}

/// An entry as a value: the block's qubit (none for a passed-through
/// operation) and the operations it holds.
pub open spec fn entry_view(g: GroupedOp) -> (Option<usize>, Seq<usize>) {
    match g {
        GroupedOp::Block { qubit, ops } => (Some(qubit), ops@),
        GroupedOp::Op(i) => (None, seq![i]),
    }
}

/// The entries of a grouped circuit as values.
pub open spec fn entries_view(gs: Seq<GroupedOp>) -> Seq<(Option<usize>, Seq<usize>)> {
    gs.map_values(|g: GroupedOp| entry_view(g))
}

/// The qubit lists of the operations.
pub open spec fn qubit_lists(ops: Seq<Vec<usize>>) -> Seq<Seq<usize>> {
    ops.map_values(|v: Vec<usize>| v@)
}

/// The pending runs, one per qubit.
pub open spec fn runs_view(bufs: Seq<Vec<usize>>) -> Seq<Seq<usize>> {
    bufs.map_values(|v: Vec<usize>| v@)
}

/// Emits the pending run of qubit `q` as a block, if it is not empty.
pub open spec fn flush_q(st: (Seq<(Option<usize>, Seq<usize>)>, Seq<Seq<usize>>), q: usize)
    -> (Seq<(Option<usize>, Seq<usize>)>, Seq<Seq<usize>>)
{
    if st.1[q as int].len() > 0 {
        (st.0.push((Some(q), st.1[q as int])), st.1.update(q as int, Seq::empty()))
    } else {
        st
    }
}

/// Emits the pending runs of the first `j` qubits of `qs`, in that order.
pub open spec fn flush_each(st: (Seq<(Option<usize>, Seq<usize>)>, Seq<Seq<usize>>), qs: Seq<usize>, j: int)
    -> (Seq<(Option<usize>, Seq<usize>)>, Seq<Seq<usize>>)
    decreases j,
{
    if j <= 0 { st } else { flush_q(flush_each(st, qs, j - 1), qs[j - 1]) }
}

/// Emits the pending runs of qubits `0..m`, in order.
pub open spec fn flush_below(st: (Seq<(Option<usize>, Seq<usize>)>, Seq<Seq<usize>>), m: int)
    -> (Seq<(Option<usize>, Seq<usize>)>, Seq<Seq<usize>>)
    decreases m,
{
    if m <= 0 { st } else { flush_q(flush_below(st, m - 1), (m - 1) as usize) }
}

/// The entries and pending runs once the first `k` operations are read: a
/// single-qubit operation joins the run of its qubit; any other operation
/// first emits the runs of its qubits, then passes through.
pub open spec fn group_upto(ops: Seq<Seq<usize>>, n: nat, k: int) -> (Seq<(Option<usize>, Seq<usize>)>, Seq<Seq<usize>>)
    decreases k,
{
    if k <= 0 {
        (Seq::empty(), Seq::new(n, |q: int| Seq::<usize>::empty()))
    } else {
        let prev = group_upto(ops, n, k - 1);
        let qs = ops[k - 1];
        if qs.len() == 1 {
            (prev.0, prev.1.update(qs[0] as int, prev.1[qs[0] as int].push((k - 1) as usize)))
        } else {
            let f = flush_each(prev, qs, qs.len() as int);
            (f.0.push((None, seq![(k - 1) as usize])), f.1)
        }
    }
}

/// The grouped circuit: all operations read, then the runs left on qubits
/// `0..n` emitted in qubit order.
pub open spec fn grouped(ops: Seq<Seq<usize>>, n: nat) -> Seq<(Option<usize>, Seq<usize>)> {
    flush_below(group_upto(ops, n, ops.len() as int), n as int).0
}

/// Every qubit named by an operation is below `n`.
pub open spec fn qubits_below(ops: Seq<Seq<usize>>, n: nat) -> bool {
    forall|i: int, j: int| 0 <= i < ops.len() && 0 <= j < ops[i].len() ==> (#[trigger] ops[i][j]) < n
}

/// Emits the pending run of qubit `q` as a block, if it is not empty.
fn flush(out: &mut Vec<GroupedOp>, bufs: &mut Vec<Vec<usize>>, q: usize)
    requires
        q < old(bufs)@.len(),
    ensures
        (entries_view(final(out)@), runs_view(final(bufs)@)) == flush_q((entries_view(old(out)@), runs_view(old(bufs)@)), q),
        final(bufs)@.len() == old(bufs)@.len(),
{
    if bufs[q].len() > 0 {
        let ghost b0 = bufs@;
        let ghost o0 = out@;
        let mut run: Vec<usize> = Vec::new();
        bufs.set_and_swap(q, &mut run);
        out.push(GroupedOp::Block { qubit: q, ops: run });
        proof {
            assert(entries_view(out@) =~= entries_view(o0).push((Some(q), runs_view(b0)[q as int])));
            assert(runs_view(bufs@) =~= runs_view(b0).update(q as int, Seq::empty()));
        }
    }
}

/// Groups the operations, given by their qubit lists, into runs of
/// single-qubit operations per qubit and passed-through operations, as
/// `grouped` describes.
pub fn single_qubit_runs(n_qubits: usize, ops: &Vec<Vec<usize>>) -> (r: Vec<GroupedOp>)
    requires
        qubits_below(qubit_lists(ops@), n_qubits as nat),
    ensures
        entries_view(r@) == grouped(qubit_lists(ops@), n_qubits as nat),
{
    let ghost qs = qubit_lists(ops@);
    let ghost n = n_qubits as nat;
    let mut out: Vec<GroupedOp> = Vec::new();
    let mut bufs: Vec<Vec<usize>> = Vec::new();
    let mut q: usize = 0;
    while q < n_qubits
        invariant
            q <= n_qubits,
            bufs@.len() == q,
            forall|j: int| 0 <= j < q ==> (#[trigger] bufs@[j])@ == Seq::<usize>::empty(),
        decreases n_qubits - q,
    {
        bufs.push(Vec::new());
        q += 1;
    }
    proof {
        assert(runs_view(bufs@) =~= Seq::new(n, |q: int| Seq::<usize>::empty()));
        assert(entries_view(out@) =~= Seq::empty());
    }
    let mut k: usize = 0;
    while k < ops.len()
        invariant
            k <= ops@.len(),
            qs == qubit_lists(ops@),
            qs.len() == ops@.len(),
            n == n_qubits as nat,
            qubits_below(qs, n),
            bufs@.len() == n,
            (entries_view(out@), runs_view(bufs@)) == group_upto(qs, n, k as int),
        decreases ops@.len() - k,
    {
        let op = &ops[k];
        proof { assert(qs[k as int] == op@); }
        if op.len() == 1 {
            let q0 = op[0];
            proof { assert(qs[k as int][0] == q0); }
            let ghost b0 = bufs@;
            let mut run: Vec<usize> = Vec::new();
            bufs.set_and_swap(q0, &mut run);
            run.push(k);
            bufs.set_and_swap(q0, &mut run);
            proof {
                assert(runs_view(bufs@) =~= runs_view(b0).update(q0 as int, runs_view(b0)[q0 as int].push(k)));
            }
        } else {
            let ghost st0 = (entries_view(out@), runs_view(bufs@));
            let mut j: usize = 0;
            while j < op.len()
                invariant
                    j <= op@.len(),
                    qs[k as int] == op@,
                    k < qs.len(),
                    qubits_below(qs, n),
                    n == n_qubits as nat,
                    bufs@.len() == n,
                    (entries_view(out@), runs_view(bufs@)) == flush_each(st0, op@, j as int),
                decreases op@.len() - j,
            {
                proof { assert(qs[k as int][j as int] == op@[j as int]); }
                flush(&mut out, &mut bufs, op[j]);
                j += 1;
            }
            let ghost o1 = out@;
            out.push(GroupedOp::Op(k));
            proof {
                assert(entries_view(out@) =~= entries_view(o1).push((None, seq![k])));
            }
        }
        k += 1;
    }
    let mut q: usize = 0;
    let ghost st1 = (entries_view(out@), runs_view(bufs@));
    while q < n_qubits
        invariant
            q <= n_qubits,
            bufs@.len() == n_qubits,
            (entries_view(out@), runs_view(bufs@)) == flush_below(st1, q as int),
        decreases n_qubits - q,
    {
        flush(&mut out, &mut bufs, q);
        q += 1;
    }
    out
}

/// The operations of `s` that act on qubit `q`, in order.
pub open spec fn on_qubit_ops(ops: Seq<Seq<usize>>, s: Seq<usize>, q: usize) -> Seq<usize>
    decreases s.len(),
{
    if s.len() == 0 {
        s
    } else {
        let prev = on_qubit_ops(ops, s.drop_last(), q);
        if ops[s.last() as int].contains(q) { prev.push(s.last()) } else { prev }
    }
}

/// The operations in the order the entries list them.
pub open spec fn flatten(es: Seq<(Option<usize>, Seq<usize>)>) -> Seq<usize>
    decreases es.len(),
{
    if es.len() == 0 { Seq::empty() } else { flatten(es.drop_last()) + es.last().1 }
}

/// The indices below `k` of the operations that act on qubit `q`, in increasing order.
pub open spec fn ops_on_upto(ops: Seq<Seq<usize>>, q: usize, k: int) -> Seq<usize>
    decreases k,
{
    if k <= 0 {
        Seq::empty()
    } else {
        let prev = ops_on_upto(ops, q, k - 1);
        if ops[k - 1].contains(q) { prev.push((k - 1) as usize) } else { prev }
    }
}

proof fn lemma_on_qubit_concat(ops: Seq<Seq<usize>>, a: Seq<usize>, b: Seq<usize>, q: usize)
    ensures
        on_qubit_ops(ops, a + b, q) == on_qubit_ops(ops, a, q) + on_qubit_ops(ops, b, q),
    decreases b.len(),
{
    if b.len() == 0 {
        assert(a + b =~= a);
        assert(on_qubit_ops(ops, a, q) + on_qubit_ops(ops, b, q) =~= on_qubit_ops(ops, a, q));
    } else {
        lemma_on_qubit_concat(ops, a, b.drop_last(), q);
        assert((a + b).drop_last() =~= a + b.drop_last());
        assert((a + b).last() == b.last());
        let l = on_qubit_ops(ops, a, q);
        let r = on_qubit_ops(ops, b.drop_last(), q);
        if ops[b.last() as int].contains(q) {
            assert(l + r.push(b.last()) =~= (l + r).push(b.last()));
        }
    }
}

/// The operations of a run on qubit `r` act on `q` exactly when `q` is `r`.
proof fn lemma_on_qubit_run(ops: Seq<Seq<usize>>, s: Seq<usize>, r: usize, q: usize)
    requires
        forall|i: int| 0 <= i < s.len() ==> ops[#[trigger] s[i] as int] == seq![r],
    ensures
        on_qubit_ops(ops, s, q) == (if q == r { s } else { Seq::<usize>::empty() }),
    decreases s.len(),
{
    if s.len() > 0 {
        lemma_on_qubit_run(ops, s.drop_last(), r, q);
        assert(ops[s[s.len() - 1] as int] == seq![r]);
        assert(seq![r].contains(r)) by { assert(seq![r][0] == r); }
        if q == r {
            assert(s.drop_last().push(s.last()) =~= s);
        } else {
            assert(!seq![r].contains(q));
        }
    }
}

/// What holds after reading operations: for each qubit below `n`, the
/// operations on it already emitted, followed by its pending run, are all
/// the operations on it read so far, in order; and a pending run holds
/// single-qubit operations on its qubit.
pub open spec fn grouping_inv(ops: Seq<Seq<usize>>, n: nat, st: (Seq<(Option<usize>, Seq<usize>)>, Seq<Seq<usize>>), k: int) -> bool {
    &&& st.1.len() == n
    &&& forall|q: usize| q < n ==> on_qubit_ops(ops, flatten(st.0), q) + #[trigger] st.1[q as int] == ops_on_upto(ops, q, k)
    &&& forall|q: int, i: int| 0 <= q < n && 0 <= i < st.1[q].len() ==> ops[#[trigger] st.1[q][i] as int] == seq![q as usize]
    &&& forall|e: int| 0 <= e < st.0.len() ==> entry_ok(ops, n, #[trigger] st.0[e])
}

/// An entry is a non-empty run of single-qubit operations on its qubit, or
/// one passed-through operation that is not a single-qubit gate.
pub open spec fn entry_ok(ops: Seq<Seq<usize>>, n: nat, e: (Option<usize>, Seq<usize>)) -> bool {
    match e.0 {
        Some(q) => q < n && e.1.len() > 0 && forall|i: int| 0 <= i < e.1.len() ==> ops[#[trigger] e.1[i] as int] == seq![q],
        None => e.1.len() == 1 && ops[e.1[0] as int].len() != 1,
    }
}

proof fn lemma_flush_q_inv(ops: Seq<Seq<usize>>, n: nat, st: (Seq<(Option<usize>, Seq<usize>)>, Seq<Seq<usize>>), k: int, r: usize)
    requires
        grouping_inv(ops, n, st, k),
        r < n,
    ensures
        grouping_inv(ops, n, flush_q(st, r), k),
        flush_q(st, r).1[r as int].len() == 0,
        forall|q: int| 0 <= q < n && q != r ==> #[trigger] flush_q(st, r).1[q] == st.1[q],
{
    let run = st.1[r as int];
    if run.len() > 0 {
        let st2 = flush_q(st, r);
        assert(flatten(st2.0) == flatten(st.0) + run) by {
            assert(st2.0.drop_last() =~= st.0);
        }
        assert(entry_ok(ops, n, (Some(r), run))) by {
            assert forall|i: int| 0 <= i < run.len() implies ops[#[trigger] run[i] as int] == seq![r] by {
                assert(st.1[r as int][i] == run[i]);
            }
        }
        assert forall|e: int| 0 <= e < st2.0.len() implies entry_ok(ops, n, #[trigger] st2.0[e]) by {
            if e < st.0.len() { assert(st2.0[e] == st.0[e]); }
        }
        assert forall|q: usize| q < n implies on_qubit_ops(ops, flatten(st2.0), q) + #[trigger] st2.1[q as int] == ops_on_upto(ops, q, k) by {
            lemma_on_qubit_concat(ops, flatten(st.0), run, q);
            lemma_on_qubit_run(ops, run, r, q);
            if q == r {
                assert(st2.1[q as int] =~= Seq::<usize>::empty());
                assert(on_qubit_ops(ops, flatten(st.0), q) + run + Seq::<usize>::empty() =~= on_qubit_ops(ops, flatten(st.0), q) + run);
            } else {
                assert(on_qubit_ops(ops, flatten(st.0), q) + Seq::<usize>::empty() =~= on_qubit_ops(ops, flatten(st.0), q));
            }
        }
    }
}

proof fn lemma_flush_each_inv(ops: Seq<Seq<usize>>, n: nat, st: (Seq<(Option<usize>, Seq<usize>)>, Seq<Seq<usize>>), k: int,
    qs: Seq<usize>, j: int)
    requires
        grouping_inv(ops, n, st, k),
        0 <= j <= qs.len(),
        forall|i: int| 0 <= i < qs.len() ==> (#[trigger] qs[i]) < n,
    ensures
        grouping_inv(ops, n, flush_each(st, qs, j), k),
        forall|i: int| 0 <= i < j ==> (#[trigger] flush_each(st, qs, j).1[qs[i] as int]).len() == 0,
    decreases j,
{
    if j > 0 {
        lemma_flush_each_inv(ops, n, st, k, qs, j - 1);
        let prev = flush_each(st, qs, j - 1);
        lemma_flush_q_inv(ops, n, prev, k, qs[j - 1]);
        assert forall|i: int| 0 <= i < j implies (#[trigger] flush_each(st, qs, j).1[qs[i] as int]).len() == 0 by {
            if i < j - 1 && qs[i] != qs[j - 1] {
                assert(flush_each(st, qs, j).1[qs[i] as int] == prev.1[qs[i] as int]);
            }
        }
    }
}

proof fn lemma_flush_below_inv(ops: Seq<Seq<usize>>, n: nat, st: (Seq<(Option<usize>, Seq<usize>)>, Seq<Seq<usize>>), k: int, m: int)
    requires
        grouping_inv(ops, n, st, k),
        0 <= m <= n,
        n <= usize::MAX,
    ensures
        grouping_inv(ops, n, flush_below(st, m), k),
        forall|q: int| 0 <= q < m ==> (#[trigger] flush_below(st, m).1[q]).len() == 0,
    decreases m,
{
    if m > 0 {
        lemma_flush_below_inv(ops, n, st, k, m - 1);
        let prev = flush_below(st, m - 1);
        lemma_flush_q_inv(ops, n, prev, k, (m - 1) as usize);
        assert forall|q: int| 0 <= q < m implies (#[trigger] flush_below(st, m).1[q]).len() == 0 by {
            if q < m - 1 {
                assert(flush_below(st, m).1[q] == prev.1[q]);
            }
        }
    }
}

proof fn lemma_group_upto_inv(ops: Seq<Seq<usize>>, n: nat, k: int)
    requires
        qubits_below(ops, n),
        0 <= k <= ops.len(),
        ops.len() <= usize::MAX,
    ensures
        grouping_inv(ops, n, group_upto(ops, n, k), k),
    decreases k,
{
    if k == 0 {
        let st = group_upto(ops, n, 0);
        assert(flatten(st.0) =~= Seq::<usize>::empty());
        assert forall|q: usize| q < n implies on_qubit_ops(ops, flatten(st.0), q) + #[trigger] st.1[q as int] == ops_on_upto(ops, q, 0) by {
            assert(on_qubit_ops(ops, flatten(st.0), q) + st.1[q as int] =~= Seq::<usize>::empty());
        }
    } else {
        lemma_group_upto_inv(ops, n, k - 1);
        let prev = group_upto(ops, n, k - 1);
        let st = group_upto(ops, n, k);
        let qs = ops[k - 1];
        let x = (k - 1) as usize;
        if qs.len() == 1 {
            let r = qs[0];
            assert(ops[k - 1][0] < n);
            assert(qs =~= seq![r]);
            assert(flatten(st.0) == flatten(prev.0));
            assert forall|q: usize| q < n implies on_qubit_ops(ops, flatten(st.0), q) + #[trigger] st.1[q as int] == ops_on_upto(ops, q, k) by {
                if q == r {
                    assert(qs.contains(q)) by { assert(qs[0] == q); }
                    assert(on_qubit_ops(ops, flatten(prev.0), q) + prev.1[q as int].push(x)
                        =~= (on_qubit_ops(ops, flatten(prev.0), q) + prev.1[q as int]).push(x));
                } else {
                    assert(!qs.contains(q));
                }
            }
            assert forall|q: int, i: int| 0 <= q < n && 0 <= i < st.1[q].len() implies ops[#[trigger] st.1[q][i] as int] == seq![q as usize] by {
                if q == r as int && i == prev.1[q].len() {
                    assert(st.1[q][i] == x);
                } else {
                    assert(st.1[q][i] == prev.1[q][i]);
                }
            }
        } else {
            assert forall|i: int| 0 <= i < qs.len() implies (#[trigger] qs[i]) < n by {
                assert(ops[k - 1][i] < n);
            }
            lemma_flush_each_inv(ops, n, prev, k - 1, qs, qs.len() as int);
            let f = flush_each(prev, qs, qs.len() as int);
            assert(flatten(st.0) == flatten(f.0) + seq![x]) by {
                assert(st.0.drop_last() =~= f.0);
            }
            assert forall|e: int| 0 <= e < st.0.len() implies entry_ok(ops, n, #[trigger] st.0[e]) by {
                if e < f.0.len() {
                    assert(st.0[e] == f.0[e]);
                } else {
                    assert(st.0[e] == (None::<usize>, seq![x]));
                    assert(x as int == k - 1);
                }
            }
            assert forall|q: usize| q < n implies on_qubit_ops(ops, flatten(st.0), q) + #[trigger] st.1[q as int] == ops_on_upto(ops, q, k) by {
                lemma_on_qubit_concat(ops, flatten(f.0), seq![x], q);
                assert(seq![x].drop_last() =~= Seq::<usize>::empty());
                assert(on_qubit_ops(ops, Seq::<usize>::empty(), q) == Seq::<usize>::empty());
                assert(seq![x].last() == x);
                assert(x as int == k - 1);
                assert(ops[x as int] == qs);
                if qs.contains(q) {
                    let i = choose|i: int| 0 <= i < qs.len() && qs[i] == q;
                    assert(f.1[qs[i] as int].len() == 0);
                    assert(f.1[q as int] =~= Seq::<usize>::empty());
                    assert(on_qubit_ops(ops, seq![x], q) =~= seq![x]);
                    assert(on_qubit_ops(ops, flatten(f.0), q) + seq![x] + Seq::<usize>::empty()
                        =~= (on_qubit_ops(ops, flatten(f.0), q) + f.1[q as int]).push(x));
                } else {
                    assert(on_qubit_ops(ops, seq![x], q) =~= Seq::<usize>::empty());
                    assert(on_qubit_ops(ops, flatten(f.0), q) + Seq::<usize>::empty() =~= on_qubit_ops(ops, flatten(f.0), q));
                }
            }
        }
    }
}

/// Every entry of the grouped circuit is a non-empty run of single-qubit
/// operations on its qubit, or one passed-through operation that is not a
/// single-qubit gate: no block is empty and no block mixes qubits.
pub proof fn lemma_grouping_entries(ops: Seq<Seq<usize>>, n: nat)
    requires
        qubits_below(ops, n),
        n <= usize::MAX,
        ops.len() <= usize::MAX,
    ensures
        forall|e: int| 0 <= e < grouped(ops, n).len() ==> entry_ok(ops, n, #[trigger] grouped(ops, n)[e]),
{
    let k = ops.len() as int;
    lemma_group_upto_inv(ops, n, k);
    lemma_flush_below_inv(ops, n, group_upto(ops, n, k), k, n as int);
}

/// Grouping keeps, on every qubit, the operations acting on it in their
/// order: listing the entries of the grouped circuit one after another and
/// keeping the operations on qubit `q` gives the operations of the circuit
/// on `q`, in increasing order, each once. So the grouped circuit applies
/// the same gates to each qubit in the same order as the circuit itself.
pub proof fn lemma_grouping_keeps_qubit_order(ops: Seq<Seq<usize>>, n: nat)
    requires
        qubits_below(ops, n),
        n <= usize::MAX,
        ops.len() <= usize::MAX,
    ensures
        forall|q: usize| q < n ==> #[trigger] on_qubit_ops(ops, flatten(grouped(ops, n)), q) == ops_on_upto(ops, q, ops.len() as int),
{
    let k = ops.len() as int;
    lemma_group_upto_inv(ops, n, k);
    lemma_flush_below_inv(ops, n, group_upto(ops, n, k), k, n as int);
    let fin = flush_below(group_upto(ops, n, k), n as int);
    assert forall|q: usize| q < n implies #[trigger] on_qubit_ops(ops, flatten(grouped(ops, n)), q) == ops_on_upto(ops, q, k) by {
        assert(fin.1[q as int].len() == 0);
        assert(on_qubit_ops(ops, flatten(fin.0), q) + fin.1[q as int] =~= on_qubit_ops(ops, flatten(fin.0), q));
    }
}

/// The total length of the pending runs.
pub open spec fn runs_len(rs: Seq<Seq<usize>>) -> nat
    decreases rs.len(),
{
    if rs.len() == 0 { 0 } else { runs_len(rs.drop_last()) + rs.last().len() }
}

/// The operations listed by the entries or still pending.
pub open spec fn held(st: (Seq<(Option<usize>, Seq<usize>)>, Seq<Seq<usize>>)) -> nat {
    flatten(st.0).len() + runs_len(st.1)
}

proof fn lemma_runs_len_update(rs: Seq<Seq<usize>>, i: int, x: Seq<usize>)
    requires
        0 <= i < rs.len(),
    ensures
        runs_len(rs.update(i, x)) + rs[i].len() == runs_len(rs) + x.len(),
    decreases rs.len(),
{
    if i < rs.len() - 1 {
        assert(rs.update(i, x).drop_last() =~= rs.drop_last().update(i, x));
        lemma_runs_len_update(rs.drop_last(), i, x);
    } else {
        assert(rs.update(i, x).drop_last() =~= rs.drop_last());
    }
}

proof fn lemma_runs_len_empty(rs: Seq<Seq<usize>>)
    requires
        forall|q: int| 0 <= q < rs.len() ==> (#[trigger] rs[q]).len() == 0,
    ensures
        runs_len(rs) == 0,
    decreases rs.len(),
{
    if rs.len() > 0 {
        lemma_runs_len_empty(rs.drop_last());
    }
}

proof fn lemma_flush_q_held(st: (Seq<(Option<usize>, Seq<usize>)>, Seq<Seq<usize>>), q: usize)
    requires
        q < st.1.len(),
    ensures
        held(flush_q(st, q)) == held(st),
        flush_q(st, q).1.len() == st.1.len(),
{
    if st.1[q as int].len() > 0 {
        let st2 = flush_q(st, q);
        assert(st2.0.drop_last() =~= st.0);
        lemma_runs_len_update(st.1, q as int, Seq::empty());
    }
}

proof fn lemma_flush_each_held(st: (Seq<(Option<usize>, Seq<usize>)>, Seq<Seq<usize>>), qs: Seq<usize>, j: int)
    requires
        0 <= j <= qs.len(),
        forall|i: int| 0 <= i < qs.len() ==> (#[trigger] qs[i]) < st.1.len(),
    ensures
        held(flush_each(st, qs, j)) == held(st),
        flush_each(st, qs, j).1.len() == st.1.len(),
    decreases j,
{
    if j > 0 {
        lemma_flush_each_held(st, qs, j - 1);
        lemma_flush_q_held(flush_each(st, qs, j - 1), qs[j - 1]);
    }
}

proof fn lemma_flush_below_held(st: (Seq<(Option<usize>, Seq<usize>)>, Seq<Seq<usize>>), m: int)
    requires
        0 <= m <= st.1.len(),
    ensures
        held(flush_below(st, m)) == held(st),
        flush_below(st, m).1.len() == st.1.len(),
    decreases m,
{
    if m > 0 {
        lemma_flush_below_held(st, m - 1);
        lemma_flush_q_held(flush_below(st, m - 1), (m - 1) as usize);
    }
}

proof fn lemma_group_upto_held(ops: Seq<Seq<usize>>, n: nat, k: int)
    requires
        qubits_below(ops, n),
        0 <= k <= ops.len(),
    ensures
        held(group_upto(ops, n, k)) == k,
        group_upto(ops, n, k).1.len() == n,
    decreases k,
{
    if k == 0 {
        let st = group_upto(ops, n, 0);
        assert(flatten(st.0) =~= Seq::<usize>::empty());
        lemma_runs_len_empty(st.1);
    } else {
        lemma_group_upto_held(ops, n, k - 1);
        let prev = group_upto(ops, n, k - 1);
        let qs = ops[k - 1];
        if qs.len() == 1 {
            assert(ops[k - 1][0] < n);
            lemma_runs_len_update(prev.1, qs[0] as int, prev.1[qs[0] as int].push((k - 1) as usize));
        } else {
            assert forall|i: int| 0 <= i < qs.len() implies (#[trigger] qs[i]) < prev.1.len() by {
                assert(ops[k - 1][i] < n);
            }
            lemma_flush_each_held(prev, qs, qs.len() as int);
            let f = flush_each(prev, qs, qs.len() as int);
            let st = group_upto(ops, n, k);
            assert(st.0.drop_last() =~= f.0);
        }
    }
}

/// Grouping keeps every operation: the entries list as many operations as the
/// circuit has.
pub proof fn lemma_grouping_keeps_all(ops: Seq<Seq<usize>>, n: nat)
    requires
        qubits_below(ops, n),
        n <= usize::MAX,
        ops.len() <= usize::MAX,
    ensures
        flatten(grouped(ops, n)).len() == ops.len(),
{
    let k = ops.len() as int;
    lemma_group_upto_held(ops, n, k);
    lemma_flush_below_held(group_upto(ops, n, k), n as int);
    lemma_group_upto_inv(ops, n, k);
    lemma_flush_below_inv(ops, n, group_upto(ops, n, k), k, n as int);
    lemma_runs_len_empty(flush_below(group_upto(ops, n, k), n as int).1);
}

/// Every operation the entries list or the runs hold is below `k`.
pub open spec fn indices_below(st: (Seq<(Option<usize>, Seq<usize>)>, Seq<Seq<usize>>), k: int) -> bool {
    &&& forall|e: int, i: int| 0 <= e < st.0.len() && 0 <= i < st.0[e].1.len() ==> (#[trigger] st.0[e].1[i]) < k
    &&& forall|q: int, i: int| 0 <= q < st.1.len() && 0 <= i < st.1[q].len() ==> (#[trigger] st.1[q][i]) < k
}

proof fn lemma_flush_q_below(st: (Seq<(Option<usize>, Seq<usize>)>, Seq<Seq<usize>>), q: usize, k: int)
    requires
        q < st.1.len(),
        indices_below(st, k),
    ensures
        indices_below(flush_q(st, q), k),
{
    let st2 = flush_q(st, q);
    if st.1[q as int].len() > 0 {
        assert forall|e: int, i: int| 0 <= e < st2.0.len() && 0 <= i < st2.0[e].1.len() implies (#[trigger] st2.0[e].1[i]) < k by {
            if e < st.0.len() {
                assert(st2.0[e] == st.0[e]);
            } else {
                assert(st2.0[e].1[i] == st.1[q as int][i]);
            }
        }
        assert forall|r: int, i: int| 0 <= r < st2.1.len() && 0 <= i < st2.1[r].len() implies (#[trigger] st2.1[r][i]) < k by {
            assert(st2.1[r] == st.1[r]);
        }
    }
}

proof fn lemma_flush_each_below(st: (Seq<(Option<usize>, Seq<usize>)>, Seq<Seq<usize>>), qs: Seq<usize>, j: int, k: int)
    requires
        0 <= j <= qs.len(),
        forall|i: int| 0 <= i < qs.len() ==> (#[trigger] qs[i]) < st.1.len(),
        indices_below(st, k),
    ensures
        indices_below(flush_each(st, qs, j), k),
    decreases j,
{
    if j > 0 {
        lemma_flush_each_below(st, qs, j - 1, k);
        lemma_flush_each_held(st, qs, j - 1);
        lemma_flush_q_below(flush_each(st, qs, j - 1), qs[j - 1], k);
    }
}

proof fn lemma_flush_below_below(st: (Seq<(Option<usize>, Seq<usize>)>, Seq<Seq<usize>>), m: int, k: int)
    requires
        0 <= m <= st.1.len(),
        indices_below(st, k),
    ensures
        indices_below(flush_below(st, m), k),
    decreases m,
{
    if m > 0 {
        lemma_flush_below_below(st, m - 1, k);
        lemma_flush_below_held(st, m - 1);
        lemma_flush_q_below(flush_below(st, m - 1), (m - 1) as usize, k);
    }
}

proof fn lemma_group_upto_below(ops: Seq<Seq<usize>>, n: nat, k: int)
    requires
        qubits_below(ops, n),
        0 <= k <= ops.len(),
    ensures
        indices_below(group_upto(ops, n, k), k),
    decreases k,
{
    if k > 0 {
        lemma_group_upto_below(ops, n, k - 1);
        lemma_group_upto_held(ops, n, k - 1);
        let prev = group_upto(ops, n, k - 1);
        let st = group_upto(ops, n, k);
        let qs = ops[k - 1];
        if qs.len() == 1 {
            assert(ops[k - 1][0] < n);
            assert forall|e: int, i: int| 0 <= e < st.0.len() && 0 <= i < st.0[e].1.len() implies (#[trigger] st.0[e].1[i]) < k by {
                assert(st.0[e] == prev.0[e]);
            }
            assert forall|q: int, i: int| 0 <= q < st.1.len() && 0 <= i < st.1[q].len() implies (#[trigger] st.1[q][i]) < k by {
                if q == qs[0] as int && i == prev.1[q].len() {
                } else {
                    assert(st.1[q][i] == prev.1[q][i]);
                }
            }
        } else {
            assert forall|i: int| 0 <= i < qs.len() implies (#[trigger] qs[i]) < prev.1.len() by {
                assert(ops[k - 1][i] < n);
            }
            lemma_flush_each_below(prev, qs, qs.len() as int, k);
            lemma_flush_each_held(prev, qs, qs.len() as int);
            let f = flush_each(prev, qs, qs.len() as int);
            assert forall|e: int, i: int| 0 <= e < st.0.len() && 0 <= i < st.0[e].1.len() implies (#[trigger] st.0[e].1[i]) < k by {
                if e < f.0.len() {
                    assert(st.0[e] == f.0[e]);
                }
            }
        }
    }
}

/// Every operation the grouped entries list is one of the circuit's.
pub proof fn lemma_grouping_in_range(ops: Seq<Seq<usize>>, n: nat)
    requires
        qubits_below(ops, n),
    ensures
        forall|e: int, i: int| 0 <= e < grouped(ops, n).len() && 0 <= i < grouped(ops, n)[e].1.len()
            ==> (#[trigger] grouped(ops, n)[e].1[i]) < ops.len(),
{
    let k = ops.len() as int;
    lemma_group_upto_below(ops, n, k);
    lemma_group_upto_held(ops, n, k);
    lemma_flush_below_below(group_upto(ops, n, k), n as int, k);
}

/// The qubit lists of a circuit's operations.
pub open spec fn circuit_qubits(c: Circuit) -> Seq<Seq<usize>> {
    c.ops@.map_values(|o: Operation| o.qubits@)
}

/// `out` is the circuit the entries `es` describe over the operations of
/// `c`: an entry `(Some(q), run)` is a block on qubit `q` whose one-qubit
/// circuit applies the gates of `run` in order, an entry `(None, [j])` is
/// operation `j` itself.
pub open spec fn assembled(c: Circuit, out: Circuit, es: Seq<(Option<usize>, Seq<usize>)>) -> bool {
    &&& out.n_qubits == c.n_qubits
    &&& out.ops@.len() == es.len()
    &&& forall|e: int| 0 <= e < es.len() ==> match (#[trigger] es[e]).0 {
        Some(q) => {
            &&& out.ops@[e].gate is Block
            &&& out.ops@[e].qubits@ == seq![q]
            &&& out.ops@[e].gate->Block_0.n_qubits == 1
            &&& ops_view(*out.ops@[e].gate->Block_0)
                == es[e].1.map_values(|j: usize| (c.ops@[j as int].gate, seq![0usize]))
        },
        None => op_view(out.ops@[e]) == op_view(c.ops@[es[e].1[0] as int]),
    }
}

/// Stage 1: composes the consecutive single-qubit gates on each qubit into
/// one `Block` operation, a run being cut by any other gate touching that
/// qubit; the runs left at the end follow in qubit order. The input holds
/// gates of the pipeline's own vocabulary, no blocks.
pub fn group_single_qubit_gates(circuit: &Circuit) -> (out: Circuit)
    requires
        crate::qgate::qubits_below(*circuit),
        no_blocks(ops_view(*circuit)),
    ensures
        assembled(*circuit, out, grouped(circuit_qubits(*circuit), circuit.n_qubits as nat)),
        crate::qgate::well_formed(out),
{
    let ghost qs = circuit_qubits(*circuit);
    let ghost n = circuit.n_qubits as nat;
    let mut lists: Vec<Vec<usize>> = Vec::new();
    let mut k: usize = 0;
    while k < circuit.ops.len()
        invariant
            k <= circuit.ops@.len(),
            qubit_lists(lists@) == qs.subrange(0, k as int),
            qs == circuit_qubits(*circuit),
        decreases circuit.ops@.len() - k,
    {
        assert(qs[k as int] == circuit.ops@[k as int].qubits@);
        let ghost before = lists@;
        lists.push(copy_qubits(&circuit.ops[k].qubits));
        assert(qubit_lists(lists@) =~= qubit_lists(before).push(qs[k as int]));
        k += 1;
        assert(qubit_lists(lists@) =~= qs.subrange(0, k as int));
    }
    assert(qs.subrange(0, qs.len() as int) =~= qs);
    assert(qubits_below(qs, n)) by {
        assert forall|i: int, j: int| 0 <= i < qs.len() && 0 <= j < qs[i].len() implies (#[trigger] qs[i][j]) < n by {
            assert(qs[i] == circuit.ops@[i].qubits@);
            assert(circuit.ops@[i].qubits@[j] < circuit.n_qubits);
        }
    }
    let groups = single_qubit_runs(circuit.n_qubits, &lists);
    let ghost es = grouped(qs, n);
    proof {
        lemma_grouping_in_range(qs, n);
        lemma_grouping_entries(qs, n);
    }
    let mut out = crate::qgate::Circuit::new(circuit.n_qubits);
    let mut e: usize = 0;
    while e < groups.len()
        invariant
            e <= groups@.len(),
            entries_view(groups@) == es,
            es == grouped(qs, n),
            qs == circuit_qubits(*circuit),
            no_blocks(ops_view(*circuit)),
            forall|a: int, i: int| 0 <= a < es.len() && 0 <= i < es[a].1.len() ==> (#[trigger] es[a].1[i]) < circuit.ops@.len(),
            forall|a: int| 0 <= a < es.len() ==> ((#[trigger] es[a]).0 is None ==> es[a].1.len() == 1),
            assembled(*circuit, out, es.subrange(0, e as int)),
            crate::qgate::qubits_below(*circuit),
            crate::qgate::qubits_below(out),
            crate::qgate::blocks_fit_upto(out, e as int),
            forall|a: int| 0 <= a < es.len() ==> entry_ok(qs, n, #[trigger] es[a]),
        decreases groups@.len() - e,
    {
        let ghost prev = out.ops@;
        let ghost old_out = out;
        assert(es.len() == groups@.len());
        assert(entries_view(groups@)[e as int] == entry_view(groups@[e as int]));
        match &groups[e] {
            GroupedOp::Block { qubit, ops } => {
                let mut inner = crate::qgate::Circuit::new(1);
                assert(ops@ == es[e as int].1);
                assert(forall|i: int| 0 <= i < ops@.len() ==> (#[trigger] ops@[i]) == es[e as int].1[i]);
                assert(ops_view(inner) =~= ops@.subrange(0, 0).map_values(|j: usize| (circuit.ops@[j as int].gate, seq![0usize])));
                let mut t: usize = 0;
                while t < ops.len()
                    invariant
                        t <= ops@.len(),
                        ops@ == es[e as int].1,
                        inner.n_qubits == 1,
                        no_blocks(ops_view(*circuit)),
                        forall|i: int| 0 <= i < ops@.len() ==> (#[trigger] ops@[i]) < circuit.ops@.len(),
                        ops_view(inner) == ops@.subrange(0, t as int).map_values(|j: usize| (circuit.ops@[j as int].gate, seq![0usize])),
                        crate::qgate::qubits_below(inner),
                        no_blocks(ops_view(inner)),
                    decreases ops@.len() - t,
                {
                    let j = ops[t];
                    assert(ops_view(*circuit)[j as int] == op_view(circuit.ops@[j as int]));
                    let g = copy_gate(&circuit.ops[j].gate);
                    let ghost before = ops_view(inner);
                    let ghost before_ops = inner.ops@;
                    let zero = vec![0usize];
                    assert(zero@ =~= seq![0usize]);
                    inner.ops.push(Operation { gate: g, qubits: zero });
                    t += 1;
                    proof {
                        assert(ops_view(inner) =~= before.push((g, seq![0usize])));
                        assert forall|i: int, a: int| 0 <= i < inner.ops@.len() && 0 <= a < inner.ops@[i].qubits@.len()
                            implies (#[trigger] inner.ops@[i].qubits@[a]) < inner.n_qubits by {
                            if i < before_ops.len() { assert(inner.ops@[i] == before_ops[i]); }
                        }
                        assert forall|i: int| 0 <= i < ops_view(inner).len() implies !((#[trigger] ops_view(inner)[i]).0 is Block) by {
                            if i < before.len() { assert(ops_view(inner)[i] == before[i]); }
                        }
                        assert(ops@.subrange(0, t as int).map_values(|j: usize| (circuit.ops@[j as int].gate, seq![0usize]))
                            =~= ops@.subrange(0, t - 1).map_values(|j: usize| (circuit.ops@[j as int].gate, seq![0usize])).push((g, seq![0usize])));
                    }
                }
                assert(ops@.subrange(0, ops@.len() as int) =~= ops@);
                proof { crate::qgate::lemma_flat_blocks_fit(inner, inner.ops@.len() as int); }
                let q = *qubit;
                let one = vec![q];
                assert(one@ =~= seq![q]);
                out.ops.push(Operation { gate: Gate::Block(Box::new(inner)), qubits: one });
                proof {
                    assert(out.ops@[e as int].qubits@ =~= seq![q]);
                }
            },
            GroupedOp::Op(j) => {
                let j = *j;
                assert(es[e as int].1 == seq![j]);
                assert(es[e as int].1[0] == j);
                assert(ops_view(*circuit)[j as int] == op_view(circuit.ops@[j as int]));
                let g = copy_gate(&circuit.ops[j].gate);
                let q = copy_qubits(&circuit.ops[j].qubits);
                out.ops.push(Operation { gate: g, qubits: q });
            },
        }
        e += 1;
        proof {
            crate::qgate::lemma_blocks_fit_same_prefix(old_out, out, e - 1);
            assert(out.ops@[e - 1 as int] == out.ops@[e - 1]);
            assert forall|i: int, j: int| 0 <= i < out.ops@.len() && 0 <= j < out.ops@[i].qubits@.len()
                implies (#[trigger] out.ops@[i].qubits@[j]) < out.n_qubits by {
                if i < prev.len() {
                    assert(out.ops@[i] == prev[i]);
                } else {
                    match es[e - 1].0 {
                        Some(q) => { assert(entry_ok(qs, n, es[e - 1])); },
                        None => {
                            let jj = es[e - 1].1[0];
                            assert(out.ops@[i].qubits@ == circuit.ops@[jj as int].qubits@);
                        },
                    }
                }
            }
            let es2 = es.subrange(0, e as int);
            assert forall|a: int| 0 <= a < es2.len() implies match (#[trigger] es2[a]).0 {
                Some(q) => {
                    &&& out.ops@[a].gate is Block
                    &&& out.ops@[a].qubits@ == seq![q]
                    &&& out.ops@[a].gate->Block_0.n_qubits == 1
                    &&& ops_view(*out.ops@[a].gate->Block_0)
                        == es2[a].1.map_values(|j: usize| (circuit.ops@[j as int].gate, seq![0usize]))
                },
                None => op_view(out.ops@[a]) == op_view(circuit.ops@[es2[a].1[0] as int]),
            } by {
                if a < e - 1 {
                    assert(out.ops@[a] == prev[a]);
                    assert(es2[a] == es.subrange(0, e - 1)[a]);
                }
            }
        }
    }
    assert(es.subrange(0, es.len() as int) =~= es);
    out
}

proof fn lemma_assembled_count(c: Circuit, out: Circuit, es: Seq<(Option<usize>, Seq<usize>)>, e: int)
    requires
        assembled(c, out, es),
        no_blocks(ops_view(c)),
        0 <= e <= es.len(),
        forall|a: int, i: int| 0 <= a < es.len() && 0 <= i < es[a].1.len() ==> (#[trigger] es[a].1[i]) < c.ops@.len(),
        forall|a: int| 0 <= a < es.len() ==> ((#[trigger] es[a]).0 is None ==> es[a].1.len() == 1),
    ensures
        gate_count_upto(out, e) == flatten(es.subrange(0, e)).len(),
    decreases e,
{
    if e > 0 {
        lemma_assembled_count(c, out, es, e - 1);
        assert(es.subrange(0, e).drop_last() =~= es.subrange(0, e - 1));
        let x = es[e - 1];
        match x.0 {
            Some(q) => {
                let inner = *out.ops@[e - 1].gate->Block_0;
                assert forall|i: int| 0 <= i < ops_view(inner).len() implies !((#[trigger] ops_view(inner)[i]).0 is Block) by {
                    let j = x.1[i];
                    assert(ops_view(inner)[i] == (c.ops@[j as int].gate, seq![0usize]));
                    assert(ops_view(c)[j as int] == op_view(c.ops@[j as int]));
                }
                lemma_flat_counts(inner, inner.ops@.len() as int);
                assert(inner.ops@.len() == ops_view(inner).len());
                assert(gate_count_upto(out, e) == gate_count_upto(out, e - 1) + gate_count_upto(inner, inner.ops@.len() as int));
            },
            None => {
                let j = x.1[0];
                assert(ops_view(c)[j as int] == op_view(c.ops@[j as int]));
                assert(!(out.ops@[e - 1].gate is Block));
                assert(gate_count_upto(out, e) == gate_count_upto(out, e - 1) + 1);
            },
        }
        assert(flatten(es.subrange(0, e)) == flatten(es.subrange(0, e - 1)) + x.1);
    }
}

/// Grouping keeps the number of gates: the grouped circuit, its blocks counted by
/// the gates inside them, has as many gates as the circuit it came from.
pub proof fn lemma_grouping_keeps_gate_count(c: Circuit, out: Circuit)
    requires
        crate::qgate::qubits_below(c),
        no_blocks(ops_view(c)),
        assembled(c, out, grouped(circuit_qubits(c), c.n_qubits as nat)),
    ensures
        gate_count(out) == gate_count(c),
{
    let qs = circuit_qubits(c);
    let n = c.n_qubits as nat;
    let es = grouped(qs, n);
    assert(qubits_below(qs, n)) by {
        assert forall|i: int, j: int| 0 <= i < qs.len() && 0 <= j < qs[i].len() implies (#[trigger] qs[i][j]) < n by {
            assert(qs[i] == c.ops@[i].qubits@);
            assert(c.ops@[i].qubits@[j] < c.n_qubits);
        }
    }
    assert(qs.len() == c.ops@.len());
    assert(c.ops@.len() == c.ops.len());
    lemma_grouping_in_range(qs, n);
    lemma_grouping_entries(qs, n);
    lemma_grouping_keeps_all(qs, n);
    lemma_assembled_count(c, out, es, es.len() as int);
    assert(es.subrange(0, es.len() as int) =~= es);
    lemma_flat_counts(c, c.ops@.len() as int);
}


/// The last of the first `k` operations that acts on qubit `q` is a
/// single-qubit operation (on `q`).
pub open spec fn last_on_single(ops: Seq<Seq<usize>>, q: usize, k: int) -> bool
    decreases k,
{
    if k <= 0 { false } else if ops[k - 1].contains(q) { ops[k - 1] =~= seq![q] } else { last_on_single(ops, q, k - 1) }
}

/// The number of maximal stretches of single-qubit operations on qubit `q`
/// among the first `k` operations: a stretch starts at a single-qubit
/// operation on `q` unless the operation on `q` just before it was one too.
pub open spec fn stretches(ops: Seq<Seq<usize>>, q: usize, k: int) -> nat
    decreases k,
{
    if k <= 0 {
        0
    } else {
        stretches(ops, q, k - 1) + (if ops[k - 1] =~= seq![q] && !last_on_single(ops, q, k - 1) { 1nat } else { 0nat })
    }
}

/// The number of blocks on qubit `q` among the entries.
pub open spec fn blocks_on(es: Seq<(Option<usize>, Seq<usize>)>, q: usize) -> nat
    decreases es.len(),
{
    if es.len() == 0 { 0 } else { blocks_on(es.drop_last(), q) + (if es.last().0 == Some(q) { 1nat } else { 0nat }) }
}

/// Blocks emitted on `q` plus one if a run on `q` is pending.
pub open spec fn on_q(st: (Seq<(Option<usize>, Seq<usize>)>, Seq<Seq<usize>>), q: usize) -> nat {
    blocks_on(st.0, q) + (if st.1[q as int].len() > 0 { 1nat } else { 0nat })
}

proof fn lemma_blocks_push(es: Seq<(Option<usize>, Seq<usize>)>, e: (Option<usize>, Seq<usize>), q: usize)
    ensures
        blocks_on(es.push(e), q) == blocks_on(es, q) + (if e.0 == Some(q) { 1nat } else { 0nat }),
{
    assert(es.push(e).drop_last() =~= es);
}

proof fn lemma_flush_q_on(st: (Seq<(Option<usize>, Seq<usize>)>, Seq<Seq<usize>>), r: usize, q: usize)
    requires
        r < st.1.len(),
        q < st.1.len(),
    ensures
        on_q(flush_q(st, r), q) == on_q(st, q),
        flush_q(st, r).1.len() == st.1.len(),
        q == r ==> flush_q(st, r).1[q as int].len() == 0,
        q != r ==> flush_q(st, r).1[q as int] == st.1[q as int],
{
    if st.1[r as int].len() > 0 {
        lemma_blocks_push(st.0, (Some(r), st.1[r as int]), q);
    }
}

proof fn lemma_flush_each_on(st: (Seq<(Option<usize>, Seq<usize>)>, Seq<Seq<usize>>), qs: Seq<usize>, j: int, q: usize)
    requires
        0 <= j <= qs.len(),
        forall|i: int| 0 <= i < qs.len() ==> (#[trigger] qs[i]) < st.1.len(),
        q < st.1.len(),
    ensures
        on_q(flush_each(st, qs, j), q) == on_q(st, q),
        flush_each(st, qs, j).1.len() == st.1.len(),
        qs.take(j).contains(q) ==> flush_each(st, qs, j).1[q as int].len() == 0,
        !qs.take(j).contains(q) ==> flush_each(st, qs, j).1[q as int] == st.1[q as int],
    decreases j,
{
    if j > 0 {
        lemma_flush_each_on(st, qs, j - 1, q);
        let f = flush_each(st, qs, j - 1);
        lemma_flush_q_on(f, qs[j - 1], q);
        assert(qs.take(j) =~= qs.take(j - 1).push(qs[j - 1]));
        if qs.take(j).contains(q) && !qs.take(j - 1).contains(q) {
            let i = choose|i: int| 0 <= i < j && #[trigger] qs.take(j)[i] == q;
            if i < j - 1 {
                assert(qs.take(j - 1)[i] == q);
            }
        }
        if qs.take(j - 1).contains(q) {
            let i = choose|i: int| 0 <= i < j - 1 && #[trigger] qs.take(j - 1)[i] == q;
            assert(qs.take(j)[i] == q);
        }
        if !qs.take(j).contains(q) && qs[j - 1] == q {
            assert(qs.take(j)[j - 1] == q);
        }
    }
}

proof fn lemma_flush_below_on(st: (Seq<(Option<usize>, Seq<usize>)>, Seq<Seq<usize>>), m: int, q: usize)
    requires
        0 <= m <= st.1.len(),
        q < st.1.len(),
    ensures
        on_q(flush_below(st, m), q) == on_q(st, q),
        flush_below(st, m).1.len() == st.1.len(),
        q < m ==> flush_below(st, m).1[q as int].len() == 0,
    decreases m,
{
    if m > 0 {
        lemma_flush_below_on(st, m - 1, q);
        lemma_flush_q_on(flush_below(st, m - 1), (m - 1) as usize, q);
    }
}

/// What reading the first `k` operations keeps, per qubit: the blocks
/// emitted on it plus its pending run, if any, count its stretches so far,
/// and a run is pending exactly when the last operation on it was a
/// single-qubit one.
proof fn lemma_group_upto_stretches(ops: Seq<Seq<usize>>, n: nat, k: int, q: usize)
    requires
        qubits_below(ops, n),
        0 <= k <= ops.len(),
        q < n,
    ensures
        group_upto(ops, n, k).1.len() == n,
        on_q(group_upto(ops, n, k), q) == stretches(ops, q, k),
        (group_upto(ops, n, k).1[q as int].len() > 0) == last_on_single(ops, q, k),
    decreases k,
{
    if k > 0 {
        lemma_group_upto_stretches(ops, n, k - 1, q);
        let prev = group_upto(ops, n, k - 1);
        let qs = ops[k - 1];
        if qs.len() == 1 {
            let r = qs[0];
            assert(r < n);
            assert(qs =~= seq![r]);
            let st = group_upto(ops, n, k);
            assert(st.0 == prev.0);
            if r == q {
                assert(qs.contains(q)) by { assert(qs[0] == q); }
                assert(st.1[q as int] == prev.1[q as int].push((k - 1) as usize));
            } else {
                assert(!qs.contains(q)) by {
                    if qs.contains(q) {
                        let i = choose|i: int| 0 <= i < qs.len() && qs[i] == q;
                        assert(i == 0);
                    }
                }
                assert(!(qs =~= seq![q])) by { assert(seq![q][0] == q); }
                assert(st.1[q as int] == prev.1[q as int]);
            }
        } else {
            assert forall|i: int| 0 <= i < qs.len() implies (#[trigger] qs[i]) < prev.1.len() by {
                assert(qs[i] < n);
            }
            lemma_flush_each_on(prev, qs, qs.len() as int, q);
            let f = flush_each(prev, qs, qs.len() as int);
            lemma_blocks_push(f.0, (None, seq![(k - 1) as usize]), q);
            assert(qs.take(qs.len() as int) =~= qs);
            assert(!(qs =~= seq![q]));
        }
    }
}

/// Grouping cuts a run of single-qubit operations on a qubit only at an
/// operation that is not a single-qubit one and acts on that same qubit:
/// the grouped circuit holds, on each qubit, exactly as many blocks as the
/// circuit has maximal stretches of single-qubit operations on it. (An
/// operation on other qubits never splits a run.)
pub proof fn lemma_grouping_blocks_are_stretches(ops: Seq<Seq<usize>>, n: nat)
    requires
        qubits_below(ops, n),
    ensures
        forall|q: usize| q < n ==> #[trigger] blocks_on(grouped(ops, n), q) == stretches(ops, q, ops.len() as int),
{
    assert forall|q: usize| q < n implies #[trigger] blocks_on(grouped(ops, n), q) == stretches(ops, q, ops.len() as int) by {
        let k = ops.len() as int;
        lemma_group_upto_stretches(ops, n, k, q);
        let st = group_upto(ops, n, k);
        lemma_flush_below_on(st, n as int, q);
    }
}

} // verus!
