//! Circuits of the Clifford+T pipeline: gates that may still carry a
//! continuous parameter (`Rz`, `U3`) or be an opaque sub-circuit (`Block`).
//!
//! A rotation angle is held as the bit pattern of its `f64` value
//! (`f64::to_bits`), so a gate is a plain value here and angles pass through
//! every structural operation unchanged, bit for bit.
use vstd::prelude::*;

verus! {

/// A gate of a pipeline circuit.
#[derive(Debug)]
pub enum Gate {
    Id,
    H,
    S,
    Sdg,
    T,
    Tdg,
    X,
    Y,
    Z,
    /// `exp(-i*theta*Z/2)`; the angle's bit pattern.
    Rz(u64),
    /// A general single-qubit unitary `Rz(phi)*Ry(theta)*Rz(lam)`; the bit
    /// patterns of `theta`, `phi` and `lam`.
    U3(u64, u64, u64),
    Cx,
    Cz,
    Swap,
    /// An opaque sub-circuit treated as a single gate; its qubit `j` is the
    /// operation's `qubits[j]`.
    Block(Box<Circuit>),
}

/// A gate applied to qubits; `qubits[0]` is this gate's own qubit 0.
#[derive(Debug)]
pub struct Operation {
    pub gate: Gate,
    pub qubits: Vec<usize>,
}

/// A circuit on `n_qubits` qubits, its operations in program order.
#[derive(Debug)]
pub struct Circuit {
    pub n_qubits: usize,
    pub ops: Vec<Operation>,
}

/// The Clifford gates: Id, H, S, Sdg, X, Y, Z, CX, CZ and SWAP.
pub open spec fn is_clifford_gate(g: Gate) -> bool {
    match g {
        Gate::Id | Gate::H | Gate::S | Gate::Sdg | Gate::X | Gate::Y | Gate::Z | Gate::Cx
            | Gate::Cz | Gate::Swap => true,
        _ => false,
    }
}

/// How many qubits a gate acts on.
pub open spec fn gate_arity(g: Gate) -> nat {
    match g {
        Gate::Cx | Gate::Cz | Gate::Swap => 2,
        Gate::Block(c) => c.n_qubits as nat,
        _ => 1,
    }
}

impl Gate {
    /// Whether this gate is a Clifford gate.
    pub fn is_clifford(&self) -> (r: bool)
        ensures
            r == is_clifford_gate(*self),
    {
        match self {
            Gate::Id | Gate::H | Gate::S | Gate::Sdg | Gate::X | Gate::Y | Gate::Z | Gate::Cx
                | Gate::Cz | Gate::Swap => true,
            _ => false,
        }
    }

    /// Whether this gate is an `Rz` rotation.
    pub fn is_rz(&self) -> (r: bool)
        ensures
            r == (*self is Rz),
    {
        match self {
            Gate::Rz(_) => true,
            _ => false,
        }
    }

    /// How many qubits this gate acts on: 2 for CX, CZ and SWAP, the inner
    /// circuit's width for a block, 1 otherwise.
    pub fn num_qubits(&self) -> (n: usize)
        ensures
            n == gate_arity(*self),
    {
        match self {
            Gate::Cx | Gate::Cz | Gate::Swap => 2,
            Gate::Block(c) => c.n_qubits,
            _ => 1,
        }
    }
}

/// The number of gates among the first `k` operations of `c`, counting the
/// gates inside a block in place of the block.
pub open spec fn gate_count_upto(c: Circuit, k: int) -> nat
    decreases c, k,
{
    if k <= 0 || k > c.ops@.len() {
        0
    } else {
        let op = c.ops@[k - 1];
        gate_count_upto(c, k - 1) + match op.gate {
            Gate::Block(inner) => {
                proof { lemma_inner_decreases(c, k - 1); }
                gate_count_upto(*inner, inner.ops@.len() as int)
            },
            _ => 1,
        }
    }
}

/// The number of gates of `c`, counting the gates inside a block in place of
/// the block.
pub open spec fn gate_count(c: Circuit) -> nat {
    gate_count_upto(c, c.ops@.len() as int)
}

/// A circuit is larger than the inner circuit of any of its blocks.
pub proof fn lemma_inner_decreases(c: Circuit, i: int)
    requires
        0 <= i < c.ops@.len(),
        c.ops@[i].gate is Block,
    ensures
        decreases_to!(c => *c.ops@[i].gate->Block_0),
{
    assert(decreases_to!(c.ops => c.ops[i]));
}

/// The number of `Rz` gates among the first `k` operations of `c`, counting
/// those inside a block too.
pub open spec fn rz_count_upto(c: Circuit, k: int) -> nat
    decreases c, k,
{
    if k <= 0 || k > c.ops@.len() {
        0
    } else {
        let op = c.ops@[k - 1];
        rz_count_upto(c, k - 1) + match op.gate {
            Gate::Block(inner) => {
                proof { lemma_inner_decreases(c, k - 1); }
                rz_count_upto(*inner, inner.ops@.len() as int)
            },
            Gate::Rz(_) => 1,
            _ => 0,
        }
    }
}

/// The number of `Rz` gates of `c`, counting those inside blocks too.
pub open spec fn rz_count(c: Circuit) -> nat {
    rz_count_upto(c, c.ops@.len() as int)
}

/// Counting over a longer prefix never gives less.
pub proof fn lemma_counts_monotone(c: Circuit, j: int, k: int)
    requires
        0 <= j <= k <= c.ops@.len(),
    ensures
        gate_count_upto(c, j) <= gate_count_upto(c, k),
        rz_count_upto(c, j) <= rz_count_upto(c, k),
    decreases k - j,
{
    if j < k {
        lemma_counts_monotone(c, j, k - 1);
    }
}

/// Total gate count, recursing into `Block` sub-circuits: a block counts as
/// the gates inside it.
pub fn total_gate_count(circuit: &Circuit) -> (n: usize)
    requires
        gate_count(*circuit) <= usize::MAX,
    ensures
        n == gate_count(*circuit),
    decreases *circuit,
{
    let mut total: usize = 0;
    let mut k: usize = 0;
    while k < circuit.ops.len()
        invariant
            k <= circuit.ops@.len(),
            total == gate_count_upto(*circuit, k as int),
            gate_count(*circuit) <= usize::MAX,
        decreases circuit.ops@.len() - k,
    {
        proof { lemma_counts_monotone(*circuit, k + 1, circuit.ops@.len() as int); }
        let add: usize = match &circuit.ops[k].gate {
            Gate::Block(inner) => {
                proof { lemma_inner_decreases(*circuit, k as int); }
                total_gate_count(inner)
            },
            _ => 1,
        };
        total = total + add;
        k += 1;
    }
    total
}

/// Total `Rz` gate count, recursing into `Block` sub-circuits.
pub fn total_rz_count(circuit: &Circuit) -> (n: usize)
    requires
        rz_count(*circuit) <= usize::MAX,
    ensures
        n == rz_count(*circuit),
    decreases *circuit,
{
    let mut total: usize = 0;
    let mut k: usize = 0;
    while k < circuit.ops.len()
        invariant
            k <= circuit.ops@.len(),
            total == rz_count_upto(*circuit, k as int),
            rz_count(*circuit) <= usize::MAX,
        decreases circuit.ops@.len() - k,
    {
        proof { lemma_counts_monotone(*circuit, k + 1, circuit.ops@.len() as int); }
        let add: usize = match &circuit.ops[k].gate {
            Gate::Block(inner) => {
                proof { lemma_inner_decreases(*circuit, k as int); }
                total_rz_count(inner)
            },
            Gate::Rz(_) => 1,
            _ => 0,
        };
        total = total + add;
        k += 1;
    }
    total
}

/// An operation as a value: its gate and its qubits.
pub open spec fn op_view(o: Operation) -> (Gate, Seq<usize>) {
    (o.gate, o.qubits@)
}

/// The operations of a circuit as values, in program order.
pub open spec fn ops_view(c: Circuit) -> Seq<(Gate, Seq<usize>)> {
    c.ops@.map_values(|o: Operation| op_view(o))
}

/// Operations renamed onto other qubits: qubit `q` becomes `qs[q]`.
pub open spec fn remap(s: Seq<(Gate, Seq<usize>)>, qs: Seq<usize>) -> Seq<(Gate, Seq<usize>)> {
    s.map_values(|e: (Gate, Seq<usize>)| (e.0, e.1.map_values(|q: usize| qs[q as int])))
}

/// The first `k` operations of `c` with every block replaced, recursively, by
/// its inner operations renamed onto the block's qubits.
pub open spec fn unfolded_upto(c: Circuit, k: int) -> Seq<(Gate, Seq<usize>)>
    decreases c, k,
{
    if k <= 0 || k > c.ops@.len() {
        Seq::empty()
    } else {
        let op = c.ops@[k - 1];
        unfolded_upto(c, k - 1) + match op.gate {
            Gate::Block(inner) => {
                proof { lemma_inner_decreases(c, k - 1); }
                remap(unfolded_upto(*inner, inner.ops@.len() as int), op.qubits@)
            },
            _ => seq![op_view(op)],
        }
    }
}

/// The operations of `c` with every block replaced, recursively, by its
/// inner operations renamed onto the block's qubits.
pub open spec fn unfolded(c: Circuit) -> Seq<(Gate, Seq<usize>)> {
    unfolded_upto(c, c.ops@.len() as int)
}

/// Every qubit an operation of `c` names is one of its qubits.
pub open spec fn qubits_below(c: Circuit) -> bool {
    forall|i: int, j: int| 0 <= i < c.ops@.len() && 0 <= j < c.ops@[i].qubits@.len()
        ==> (#[trigger] c.ops@[i].qubits@[j]) < c.n_qubits
}

/// Among the first `k` operations of `c`, every block acts on as many qubits
/// as its inner circuit has, and every circuit nested in a block, at any
/// depth, names only its own qubits.
pub open spec fn blocks_fit_upto(c: Circuit, k: int) -> bool
    decreases c, k,
{
    if k <= 0 || k > c.ops@.len() {
        true
    } else {
        let op = c.ops@[k - 1];
        &&& blocks_fit_upto(c, k - 1)
        &&& match op.gate {
            Gate::Block(inner) => {
                proof { lemma_inner_decreases(c, k - 1); }
                &&& op.qubits@.len() == inner.n_qubits
                &&& qubits_below(*inner)
                &&& blocks_fit_upto(*inner, inner.ops@.len() as int)
            },
            _ => true,
        }
    }
}

/// Every block of `c`, at any depth, fits the circuit it sits in.
pub open spec fn blocks_fit(c: Circuit) -> bool {
    blocks_fit_upto(c, c.ops@.len() as int)
}

/// A well-formed circuit: every operation names only its qubits, and every
/// block fits.
pub open spec fn well_formed(c: Circuit) -> bool {
    qubits_below(c) && blocks_fit(c)
}

/// No operation of the sequence is a block.
pub open spec fn no_blocks(s: Seq<(Gate, Seq<usize>)>) -> bool {
    forall|i: int| 0 <= i < s.len() ==> !((#[trigger] s[i]).0 is Block)
}

/// A gate that is not a block, copied.
pub(crate) fn copy_gate(g: &Gate) -> (r: Gate)
    requires
        !(*g is Block),
    ensures
        r == *g,
{
    match g {
        Gate::Id => Gate::Id,
        Gate::H => Gate::H,
        Gate::S => Gate::S,
        Gate::Sdg => Gate::Sdg,
        Gate::T => Gate::T,
        Gate::Tdg => Gate::Tdg,
        Gate::X => Gate::X,
        Gate::Y => Gate::Y,
        Gate::Z => Gate::Z,
        Gate::Rz(t) => Gate::Rz(*t),
        Gate::U3(a, b, c) => Gate::U3(*a, *b, *c),
        Gate::Cx => Gate::Cx,
        Gate::Cz => Gate::Cz,
        Gate::Swap => Gate::Swap,
        Gate::Block(_) => {
            proof { assert(false); }
            Gate::Id
        },
    }
}

/// A copy of a list of qubits.
pub(crate) fn copy_qubits(qs: &Vec<usize>) -> (r: Vec<usize>)
    ensures
        r@ == qs@,
{
    let mut r: Vec<usize> = Vec::new();
    let mut j: usize = 0;
    while j < qs.len()
        invariant
            j <= qs@.len(),
            r@ == qs@.subrange(0, j as int),
        decreases qs@.len() - j,
    {
        r.push(qs[j]);
        j += 1;
        assert(r@ =~= qs@.subrange(0, j as int));
    }
    r
}

/// The qubits `qs` renamed: qubit `q` becomes `outer[q]`.
fn remap_qubits(qs: &Vec<usize>, outer: &Vec<usize>) -> (r: Vec<usize>)
    requires
        forall|j: int| 0 <= j < qs@.len() ==> (#[trigger] qs@[j]) < outer@.len(),
    ensures
        r@ == qs@.map_values(|q: usize| outer@[q as int]),
{
    let mut r: Vec<usize> = Vec::new();
    let mut j: usize = 0;
    while j < qs.len()
        invariant
            j <= qs@.len(),
            forall|t: int| 0 <= t < qs@.len() ==> (#[trigger] qs@[t]) < outer@.len(),
            r@ == qs@.subrange(0, j as int).map_values(|q: usize| outer@[q as int]),
        decreases qs@.len() - j,
    {
        r.push(outer[qs[j]]);
        j += 1;
        assert(r@ =~= qs@.subrange(0, j as int).map_values(|q: usize| outer@[q as int]));
    }
    assert(qs@.subrange(0, qs@.len() as int) =~= qs@);
    r
}

impl Circuit {
    /// An empty circuit on `n_qubits` qubits.
    pub fn new(n_qubits: usize) -> (c: Circuit)
        ensures
            c.n_qubits == n_qubits,
            c.ops@.len() == 0,
    {
        Circuit { n_qubits, ops: Vec::new() }
    }

    /// Appends `gate` on `qubits`, which must be as many as this gate acts on.
    pub fn push(&mut self, gate: Gate, qubits: Vec<usize>)
        requires
            gate_arity(gate) == qubits@.len(),
        ensures
            final(self).n_qubits == old(self).n_qubits,
            final(self).ops@ == old(self).ops@.push(Operation { gate, qubits }),
    {
        self.ops.push(Operation { gate, qubits });
    }

    /// Expands every `Block` operation into its inner operations, with qubit
    /// indices renamed onto this circuit's qubits, recursively.
    pub fn unfold(&self) -> (out: Circuit)
        requires
            blocks_fit(*self),
        ensures
            out.n_qubits == self.n_qubits,
            ops_view(out) == unfolded(*self),
            no_blocks(ops_view(out)),
            qubits_below(*self) ==> qubits_below(out),
        decreases *self,
    {
        let mut out = Circuit::new(self.n_qubits);
        let mut k: usize = 0;
        while k < self.ops.len()
            invariant
                k <= self.ops@.len(),
                blocks_fit(*self),
                out.n_qubits == self.n_qubits,
                ops_view(out) == unfolded_upto(*self, k as int),
                no_blocks(ops_view(out)),
                qubits_below(*self) ==> qubits_below(out),
            decreases self.ops@.len() - k,
        {
            proof { lemma_blocks_fit_prefix(*self, k + 1, self.ops@.len() as int); }
            let op = &self.ops[k];
            match &op.gate {
                Gate::Block(inner) => {
                    proof { lemma_inner_decreases(*self, k as int); }
                    let u = inner.unfold();
                    let ghost before = ops_view(out);
                    let mut t: usize = 0;
                    while t < u.ops.len()
                        invariant
                            t <= u.ops@.len(),
                            qubits_below(**inner),
                            op.qubits@.len() == inner.n_qubits,
                            u.n_qubits == inner.n_qubits,
                            qubits_below(u),
                            no_blocks(ops_view(u)),
                            out.n_qubits == self.n_qubits,
                            ops_view(out) == before + remap(ops_view(u).subrange(0, t as int), op.qubits@),
                            no_blocks(before),
                            no_blocks(ops_view(out)),
                            qubits_below(*self) ==> qubits_below(out),
                            qubits_below(*self) ==> forall|j: int| 0 <= j < op.qubits@.len()
                                ==> (#[trigger] op.qubits@[j]) < self.n_qubits,
                        decreases u.ops@.len() - t,
                    {
                        let inner_op = &u.ops[t];
                        assert(ops_view(u)[t as int] == op_view(u.ops@[t as int]));
                        assert(!(ops_view(u)[t as int].0 is Block));
                        assert forall|j: int| 0 <= j < inner_op.qubits@.len()
                            implies (#[trigger] inner_op.qubits@[j]) < op.qubits@.len() by {
                            assert(u.ops@[t as int].qubits@[j] < u.n_qubits);
                        }
                        let g = copy_gate(&inner_op.gate);
                        let qs = remap_qubits(&inner_op.qubits, &op.qubits);
                        let ghost prev = ops_view(out);
                        let ghost prev_ops = out.ops@;
                        out.ops.push(Operation { gate: g, qubits: qs });
                        proof {
                            assert(ops_view(out) =~= prev.push(op_view(Operation { gate: g, qubits: qs })));
                            assert(ops_view(u).subrange(0, t + 1) =~= ops_view(u).subrange(0, t as int).push(ops_view(u)[t as int]));
                            assert(remap(ops_view(u).subrange(0, t + 1), op.qubits@) =~= remap(ops_view(u).subrange(0, t as int), op.qubits@).push(op_view(Operation { gate: g, qubits: qs })));
                            if qubits_below(*self) {
                                assert forall|i: int, j: int| 0 <= i < out.ops@.len() && 0 <= j < out.ops@[i].qubits@.len()
                                    implies (#[trigger] out.ops@[i].qubits@[j]) < out.n_qubits by {
                                    if i < prev_ops.len() {
                                        assert(out.ops@[i] == prev_ops[i]);
                                    } else {
                                        assert(out.ops@[i].qubits@[j] == op.qubits@[inner_op.qubits@[j] as int]);
                                    }
                                }
                            }
                        }
                        t += 1;
                    }
                    proof {
                        assert(ops_view(u).subrange(0, u.ops@.len() as int) =~= ops_view(u));
                    }
                },
                _ => {
                    let g = copy_gate(&op.gate);
                    let qs = copy_qubits(&op.qubits);
                    let ghost prev = ops_view(out);
                    let ghost prev_ops = out.ops@;
                    out.ops.push(Operation { gate: g, qubits: qs });
                    proof {
                        assert(ops_view(out) =~= prev.push(op_view(*op)));
                        if qubits_below(*self) {
                            assert forall|i: int, j: int| 0 <= i < out.ops@.len() && 0 <= j < out.ops@[i].qubits@.len()
                                implies (#[trigger] out.ops@[i].qubits@[j]) < out.n_qubits by {
                                if i < prev_ops.len() {
                                    assert(out.ops@[i] == prev_ops[i]);
                                } else {
                                    assert(out.ops@[i].qubits@[j] == self.ops@[k as int].qubits@[j]);
                                }
                            }
                        }
                    }
                },
            }
            k += 1;
        }
        out
    }
}

/// Fitting blocks among a longer prefix fit among a shorter one too.
pub proof fn lemma_blocks_fit_prefix(c: Circuit, j: int, k: int)
    requires
        0 <= j <= k <= c.ops@.len(),
        blocks_fit_upto(c, k),
    ensures
        blocks_fit_upto(c, j),
    decreases k - j,
{
    if j < k {
        lemma_blocks_fit_prefix(c, j, k - 1);
    }
}

/// The number of `Rz` gates in a sequence of operations.
pub open spec fn seq_rz_count(s: Seq<(Gate, Seq<usize>)>) -> nat
    decreases s.len(),
{
    if s.len() == 0 {
        0
    } else {
        seq_rz_count(s.drop_last()) + if s.last().0 is Rz { 1nat } else { 0nat }
    }
}

proof fn lemma_seq_rz_concat(a: Seq<(Gate, Seq<usize>)>, b: Seq<(Gate, Seq<usize>)>)
    ensures
        seq_rz_count(a + b) == seq_rz_count(a) + seq_rz_count(b),
    decreases b.len(),
{
    if b.len() == 0 {
        assert(a + b =~= a);
    } else {
        assert((a + b).drop_last() =~= a + b.drop_last());
        lemma_seq_rz_concat(a, b.drop_last());
    }
}

proof fn lemma_seq_rz_remap(s: Seq<(Gate, Seq<usize>)>, qs: Seq<usize>)
    ensures
        seq_rz_count(remap(s, qs)) == seq_rz_count(s),
        remap(s, qs).len() == s.len(),
        no_blocks(s) ==> no_blocks(remap(s, qs)),
    decreases s.len(),
{
    if s.len() > 0 {
        assert(remap(s, qs).drop_last() =~= remap(s.drop_last(), qs));
        lemma_seq_rz_remap(s.drop_last(), qs);
    }
}

/// Unfolding a prefix yields as many operations as the prefix has gates, and
/// as many `Rz` gates, none of them a block.
proof fn lemma_unfolded_counts(c: Circuit, k: int)
    requires
        0 <= k <= c.ops@.len(),
    ensures
        unfolded_upto(c, k).len() == gate_count_upto(c, k),
        seq_rz_count(unfolded_upto(c, k)) == rz_count_upto(c, k),
        no_blocks(unfolded_upto(c, k)),
    decreases c, k,
{
    if k > 0 {
        lemma_unfolded_counts(c, k - 1);
        let op = c.ops@[k - 1];
        let tail = match op.gate {
            Gate::Block(inner) => {
                lemma_inner_decreases(c, k - 1);
                lemma_unfolded_counts(*inner, inner.ops@.len() as int);
                lemma_seq_rz_remap(unfolded_upto(*inner, inner.ops@.len() as int), op.qubits@);
                remap(unfolded_upto(*inner, inner.ops@.len() as int), op.qubits@)
            },
            _ => {
                let one = seq![op_view(op)];
                assert(one.drop_last() =~= Seq::<(Gate, Seq<usize>)>::empty());
                assert(one.last() == op_view(op));
                assert(seq_rz_count(one) == seq_rz_count(one.drop_last()) + if one.last().0 is Rz { 1nat } else { 0nat });
                assert(seq_rz_count(one) == if op.gate is Rz { 1nat } else { 0nat });
                one
            },
        };
        assert(unfolded_upto(c, k) == unfolded_upto(c, k - 1) + tail);
        lemma_seq_rz_concat(unfolded_upto(c, k - 1), tail);
    }
}

/// In a circuit without blocks, the first `k` operations are `k` gates, their
/// `Rz` gates those of the operations, and unfolding leaves them as they are.
pub(crate) proof fn lemma_flat_counts(d: Circuit, k: int)
    requires
        0 <= k <= d.ops@.len(),
        no_blocks(ops_view(d)),
    ensures
        gate_count_upto(d, k) == k,
        rz_count_upto(d, k) == seq_rz_count(ops_view(d).subrange(0, k)),
        unfolded_upto(d, k) == ops_view(d).subrange(0, k),
    decreases k,
{
    if k > 0 {
        lemma_flat_counts(d, k - 1);
        assert(ops_view(d)[k - 1] == op_view(d.ops@[k - 1]));
        assert(ops_view(d).subrange(0, k).drop_last() =~= ops_view(d).subrange(0, k - 1));
        assert(ops_view(d).subrange(0, k) =~= ops_view(d).subrange(0, k - 1) + seq![op_view(d.ops@[k - 1])]);
    }
}

/// Unfolding keeps the number of gates and the `Rz` count of a circuit: `d` with
/// the operations that unfolding `c` gives has as many gates and as many
/// `Rz` gates as `c`, counted through its blocks.
pub proof fn lemma_unfold_keeps_counts(c: Circuit, d: Circuit)
    requires
        ops_view(d) == unfolded(c),
    ensures
        gate_count(d) == gate_count(c),
        rz_count(d) == rz_count(c),
        no_blocks(ops_view(d)),
{
    lemma_unfolded_counts(c, c.ops@.len() as int);
    assert(d.ops@.len() == ops_view(d).len());
    lemma_flat_counts(d, d.ops@.len() as int);
    assert(ops_view(d).subrange(0, d.ops@.len() as int) =~= ops_view(d));
}

/// Unfolding a circuit without blocks leaves its operations as they are, so
/// unfolding twice gives what unfolding once gives.
pub proof fn lemma_unfold_flat_is_identity(d: Circuit)
    requires
        no_blocks(ops_view(d)),
    ensures
        unfolded(d) == ops_view(d),
{
    lemma_flat_counts(d, d.ops@.len() as int);
    assert(ops_view(d).subrange(0, d.ops@.len() as int) =~= ops_view(d));
}

/// The number of `Rz` gates among the first `k` top-level operations.
pub open spec fn params_upto(ops: Seq<Operation>, k: int) -> nat
    decreases k,
{
    if k <= 0 {
        0
    } else {
        params_upto(ops, k - 1) + if ops[k - 1].gate is Rz { 1nat } else { 0nat }
    }
}

impl Circuit {
    /// The number of continuous parameters: one per top-level `Rz` gate.
    pub fn num_params(&self) -> (n: usize)
        ensures
            n == params_upto(self.ops@, self.ops@.len() as int),
    {
        let mut n: usize = 0;
        let mut k: usize = 0;
        while k < self.ops.len()
            invariant
                k <= self.ops@.len(),
                n == params_upto(self.ops@, k as int),
                n <= k,
            decreases self.ops@.len() - k,
        {
            if self.ops[k].gate.is_rz() {
                n += 1;
            }
            k += 1;
        }
        n
    }

    /// Sets the angles of the top-level `Rz` gates, in program order, to the
    /// bit patterns of `params`; `Rz` gates past the last parameter keep
    /// theirs, and every other operation stays as it is.
    pub fn set_params(&mut self, params: &Vec<u64>)
        ensures
            final(self).n_qubits == old(self).n_qubits,
            final(self).ops@.len() == old(self).ops@.len(),
            forall|i: int| 0 <= i < old(self).ops@.len() ==> (#[trigger] final(self).ops@[i]).qubits@ == old(self).ops@[i].qubits@
                && final(self).ops@[i].gate == (if old(self).ops@[i].gate is Rz && params_upto(old(self).ops@, i) < params@.len() {
                    Gate::Rz(params@[params_upto(old(self).ops@, i) as int])
                } else {
                    old(self).ops@[i].gate
                }),
    {
        let ghost ops0 = self.ops@;
        let mut j: usize = 0;
        let mut k: usize = 0;
        while k < self.ops.len()
            invariant
                k <= self.ops@.len(),
                self.ops@.len() == ops0.len(),
                self.n_qubits == old(self).n_qubits,
                ops0 == old(self).ops@,
                j == params_upto(ops0, k as int),
                j <= k,
                forall|i: int| k <= i < ops0.len() ==> #[trigger] self.ops@[i] == ops0[i],
                forall|i: int| 0 <= i < k ==> (#[trigger] self.ops@[i]).qubits@ == ops0[i].qubits@
                    && self.ops@[i].gate == (if ops0[i].gate is Rz && params_upto(ops0, i) < params@.len() {
                        Gate::Rz(params@[params_upto(ops0, i) as int])
                    } else {
                        ops0[i].gate
                    }),
            decreases ops0.len() - k,
        {
            if self.ops[k].gate.is_rz() {
                if j < params.len() {
                    let mut op = Operation { gate: Gate::Id, qubits: Vec::new() };
                    self.ops.set_and_swap(k, &mut op);
                    op.gate = Gate::Rz(params[j]);
                    self.ops.set_and_swap(k, &mut op);
                }
                j += 1;
            }
            k += 1;
        }
    }

    /// Whether every top-level operation is a Clifford gate.
    pub fn is_all_clifford(&self) -> (r: bool)
        ensures
            r == forall|i: int| 0 <= i < self.ops@.len() ==> is_clifford_gate(#[trigger] self.ops@[i].gate),
    {
        let mut k: usize = 0;
        while k < self.ops.len()
            invariant
                k <= self.ops@.len(),
                forall|i: int| 0 <= i < k ==> is_clifford_gate(#[trigger] self.ops@[i].gate),
            decreases self.ops@.len() - k,
        {
            if !self.ops[k].gate.is_clifford() {
                return false;
            }
            k += 1;
        }
        true
    }
}

/// Kinds of gates that should not survive to a finished Clifford+T circuit.
#[derive(Debug, Clone, Copy, PartialEq, Eq, Structural)]
pub enum NonBasis {
    Rz,
    U,
    Block,
}

/// The name a leftover gate kind is reported under.
pub open spec fn non_basis_name(k: NonBasis) -> Seq<char> {
    match k {
        NonBasis::Rz => seq!['r', 'z'],
        NonBasis::U => seq!['u'],
        NonBasis::Block => seq!['b', 'l', 'o', 'c', 'k'],
    }
}

/// The leftover gates among the first `k` operations of `c`, in walk order:
/// a block's own leftovers come just before the block itself.
pub open spec fn leftovers_upto(c: Circuit, k: int) -> Seq<NonBasis>
    decreases c, k,
{
    if k <= 0 || k > c.ops@.len() {
        Seq::empty()
    } else {
        leftovers_upto(c, k - 1) + match c.ops@[k - 1].gate {
            Gate::Block(inner) => {
                proof { lemma_inner_decreases(c, k - 1); }
                leftovers_upto(*inner, inner.ops@.len() as int).push(NonBasis::Block)
            },
            Gate::Rz(_) => seq![NonBasis::Rz],
            Gate::U3(_, _, _) => seq![NonBasis::U],
            _ => Seq::empty(),
        }
    }
}

/// The leftover gates of `c`, blocks walked into, in walk order.
pub open spec fn leftovers(c: Circuit) -> Seq<NonBasis> {
    leftovers_upto(c, c.ops@.len() as int)
}

/// Counts per kind, each kind listed once, in the order it first occurs.
pub open spec fn tally(s: Seq<NonBasis>) -> Seq<(NonBasis, nat)>
    decreases s.len(),
{
    if s.len() == 0 {
        Seq::empty()
    } else {
        let t = tally(s.drop_last());
        let x = s.last();
        if exists|i: int| 0 <= i < t.len() && (#[trigger] t[i]).0 == x {
            let i = choose|i: int| 0 <= i < t.len() && (#[trigger] t[i]).0 == x;
            t.update(i, (x, t[i].1 + 1))
        } else {
            t.push((x, 1nat))
        }
    }
}

/// Each kind occurs at most once in a tally, and no count exceeds the number
/// of items tallied.
proof fn lemma_tally_shape(s: Seq<NonBasis>)
    ensures
        forall|i: int, j: int| 0 <= i < j < tally(s).len() ==> (#[trigger] tally(s)[i]).0 != (#[trigger] tally(s)[j]).0,
        forall|i: int| 0 <= i < tally(s).len() ==> (#[trigger] tally(s)[i]).1 <= s.len(),
    decreases s.len(),
{
    if s.len() > 0 {
        let p = s.drop_last();
        lemma_tally_shape(p);
        let t = tally(p);
        let x = s.last();
        if exists|i: int| 0 <= i < t.len() && (#[trigger] t[i]).0 == x {
            let w = choose|i: int| 0 <= i < t.len() && (#[trigger] t[i]).0 == x;
            assert(tally(s) == t.update(w, (x, t[w].1 + 1)));
            assert forall|i: int, j: int| 0 <= i < j < tally(s).len()
                implies (#[trigger] tally(s)[i]).0 != (#[trigger] tally(s)[j]).0 by {
                assert(t[i].0 != t[j].0);
            }
            assert forall|i: int| 0 <= i < tally(s).len() implies (#[trigger] tally(s)[i]).1 <= s.len() by {
                assert(t[i].1 <= p.len());
            }
        } else {
            assert(tally(s) == t.push((x, 1nat)));
            assert forall|i: int, j: int| 0 <= i < j < tally(s).len()
                implies (#[trigger] tally(s)[i]).0 != (#[trigger] tally(s)[j]).0 by {
                if j < t.len() {
                    assert(t[i].0 != t[j].0);
                } else {
                    assert(tally(s)[i] == t[i]);
                }
            }
            assert forall|i: int| 0 <= i < tally(s).len() implies (#[trigger] tally(s)[i]).1 <= s.len() by {
                if i < t.len() {
                    assert(t[i].1 <= p.len());
                }
            }
        }
    }
}

/// Counts one more occurrence of `x` in `counts`.
fn count_one(counts: &mut Vec<(NonBasis, usize)>, x: NonBasis, Ghost(s): Ghost<Seq<NonBasis>>)
    requires
        old(counts)@.map_values(|p: (NonBasis, usize)| (p.0, p.1 as nat)) == tally(s),
        s.len() < usize::MAX,
    ensures
        final(counts)@.map_values(|p: (NonBasis, usize)| (p.0, p.1 as nat)) == tally(s.push(x)),
{
    proof {
        lemma_tally_shape(s);
        assert(s.push(x).drop_last() =~= s);
    }
    let ghost t = tally(s);
    let mut i: usize = 0;
    while i < counts.len()
        invariant
            i <= counts@.len(),
            counts@ == old(counts)@,
            counts@.map_values(|p: (NonBasis, usize)| (p.0, p.1 as nat)) == t,
            forall|j: int| 0 <= j < i ==> (#[trigger] t[j]).0 != x,
            t == tally(s),
            s.len() < usize::MAX,
            forall|j: int| 0 <= j < t.len() ==> (#[trigger] t[j]).1 <= s.len(),
            forall|a: int, b: int| 0 <= a < b < t.len() ==> (#[trigger] t[a]).0 != (#[trigger] t[b]).0,
            tally(s.push(x)) == (if exists|j: int| 0 <= j < t.len() && (#[trigger] t[j]).0 == x {
                t.update(choose|j: int| 0 <= j < t.len() && (#[trigger] t[j]).0 == x,
                    (x, t[choose|j: int| 0 <= j < t.len() && (#[trigger] t[j]).0 == x].1 + 1))
            } else {
                t.push((x, 1nat))
            }),
        decreases counts@.len() - i,
    {
        if counts[i].0 == x {
            assert(t[i as int] == (counts@[i as int].0, counts@[i as int].1 as nat));
            assert(t[i as int].0 == x);
            assert(t[i as int].1 <= s.len());
            let c = counts[i].1;
            counts.set(i, (x, c + 1));
            proof {
                let ghost w = choose|j: int| 0 <= j < t.len() && (#[trigger] t[j]).0 == x;
                assert(w == i as int);
                assert(counts@.map_values(|p: (NonBasis, usize)| (p.0, p.1 as nat)) =~= t.update(i as int, (x, t[i as int].1 + 1)));
            }
            return;
        }
        assert(t[i as int].0 == counts@[i as int].0);
        i += 1;
    }
    assert(!exists|j: int| 0 <= j < t.len() && (#[trigger] t[j]).0 == x);
    counts.push((x, 1));
    assert(counts@.map_values(|p: (NonBasis, usize)| (p.0, p.1 as nat)) =~= t.push((x, 1nat)));
}

/// The leftovers of a shorter prefix are a prefix of those of a longer one.
proof fn lemma_leftovers_prefix(c: Circuit, j: int, k: int)
    requires
        0 <= j <= k <= c.ops@.len(),
    ensures
        leftovers_upto(c, j).len() <= leftovers_upto(c, k).len(),
    decreases k - j,
{
    if j < k {
        lemma_leftovers_prefix(c, j, k - 1);
    }
}

/// Tallies the leftover gates of `circuit`, blocks walked into, on top of
/// the tally of `before`.
fn tally_leftovers(circuit: &Circuit, counts: &mut Vec<(NonBasis, usize)>, Ghost(before): Ghost<Seq<NonBasis>>)
    requires
        old(counts)@.map_values(|p: (NonBasis, usize)| (p.0, p.1 as nat)) == tally(before),
        before.len() + leftovers(*circuit).len() < usize::MAX,
    ensures
        final(counts)@.map_values(|p: (NonBasis, usize)| (p.0, p.1 as nat)) == tally(before + leftovers(*circuit)),
    decreases *circuit,
{
    let mut k: usize = 0;
    while k < circuit.ops.len()
        invariant
            k <= circuit.ops@.len(),
            counts@.map_values(|p: (NonBasis, usize)| (p.0, p.1 as nat)) == tally(before + leftovers_upto(*circuit, k as int)),
            before.len() + leftovers(*circuit).len() < usize::MAX,
        decreases circuit.ops@.len() - k,
    {
        proof { lemma_leftovers_prefix(*circuit, k + 1, circuit.ops@.len() as int); }
        let ghost sofar = before + leftovers_upto(*circuit, k as int);
        match &circuit.ops[k].gate {
            Gate::Block(inner) => {
                proof { lemma_inner_decreases(*circuit, k as int); }
                tally_leftovers(inner, counts, Ghost(sofar));
                count_one(counts, NonBasis::Block, Ghost(sofar + leftovers(**inner)));
                proof {
                    assert((sofar + leftovers(**inner)).push(NonBasis::Block)
                        =~= before + leftovers_upto(*circuit, k + 1));
                }
            },
            Gate::Rz(_) => {
                count_one(counts, NonBasis::Rz, Ghost(sofar));
                assert(sofar.push(NonBasis::Rz) =~= before + leftovers_upto(*circuit, k + 1));
            },
            Gate::U3(_, _, _) => {
                count_one(counts, NonBasis::U, Ghost(sofar));
                assert(sofar.push(NonBasis::U) =~= before + leftovers_upto(*circuit, k + 1));
            },
            _ => {
                assert(sofar =~= before + leftovers_upto(*circuit, k + 1));
            },
        }
        k += 1;
    }
}

/// The name a leftover kind is reported under.
fn non_basis_str(k: NonBasis) -> (s: &'static str)
    ensures
        s@ == non_basis_name(k),
{
    match k {
        NonBasis::Rz => {
            proof { reveal_strlit("rz"); }
            "rz"
        },
        NonBasis::U => {
            proof { reveal_strlit("u"); }
            "u"
        },
        NonBasis::Block => {
            proof { reveal_strlit("block"); }
            "block"
        },
    }
}

/// The gates that should not survive to a finished Clifford+T circuit (a
/// stray `Rz` or `U3`, or a `Block` never unfolded), counted per kind
/// (`"rz"`, `"u"`, `"block"`), each kind listed once in the order it is
/// first met; blocks are walked into, their own leftovers met before them.
pub fn non_basis_ops(circuit: &Circuit) -> (r: Vec<(&'static str, usize)>)
    requires
        leftovers(*circuit).len() < usize::MAX,
    ensures
        r@.map_values(|p: (&'static str, usize)| (p.0@, p.1 as nat))
            == tally(leftovers(*circuit)).map_values(|p: (NonBasis, nat)| (non_basis_name(p.0), p.1)),
{
    let mut counts: Vec<(NonBasis, usize)> = Vec::new();
    assert(counts@.map_values(|p: (NonBasis, usize)| (p.0, p.1 as nat)) =~= tally(Seq::empty()));
    tally_leftovers(circuit, &mut counts, Ghost(Seq::empty()));
    assert(Seq::<NonBasis>::empty() + leftovers(*circuit) =~= leftovers(*circuit));
    let ghost t = tally(leftovers(*circuit));
    let mut r: Vec<(&'static str, usize)> = Vec::new();
    let mut i: usize = 0;
    while i < counts.len()
        invariant
            i <= counts@.len(),
            counts@.map_values(|p: (NonBasis, usize)| (p.0, p.1 as nat)) == t,
            r@.map_values(|p: (&'static str, usize)| (p.0@, p.1 as nat))
                == t.subrange(0, i as int).map_values(|p: (NonBasis, nat)| (non_basis_name(p.0), p.1)),
        decreases counts@.len() - i,
    {
        let (k, n) = counts[i];
        assert(t[i as int] == (counts@[i as int].0, counts@[i as int].1 as nat));
        assert(t[i as int] == (k, n as nat));
        let name = non_basis_str(k);
        let ghost prev = r@;
        r.push((name, n));
        proof {
            let f = |p: (&'static str, usize)| (p.0@, p.1 as nat);
            let g = |p: (NonBasis, nat)| (non_basis_name(p.0), p.1);
            assert(r@ == prev.push((name, n)));
            assert(r@.map_values(f) =~= prev.map_values(f).push(f((name, n))));
            assert(t.subrange(0, i + 1) =~= t.subrange(0, i as int).push(t[i as int]));
            assert(t.subrange(0, i + 1).map_values(g) =~= t.subrange(0, i as int).map_values(g).push(g(t[i as int])));
        }
        i += 1;
        assert(r@.map_values(|p: (&'static str, usize)| (p.0@, p.1 as nat))
            =~= t.subrange(0, i as int).map_values(|p: (NonBasis, nat)| (non_basis_name(p.0), p.1)));
    }
    assert(t.subrange(0, t.len() as int) =~= t);
    r
}

/// The number of blocks among the first `k` top-level operations.
pub open spec fn blocks_upto(ops: Seq<Operation>, k: int) -> nat
    decreases k,
{
    if k <= 0 { 0 } else { blocks_upto(ops, k - 1) + (if ops[k - 1].gate is Block { 1nat } else { 0nat }) }
}

/// The number of operations directly inside the blocks among the first `k`
/// top-level operations.
pub open spec fn block_ops_upto(ops: Seq<Operation>, k: int) -> nat
    decreases k,
{
    if k <= 0 {
        0
    } else {
        block_ops_upto(ops, k - 1) + (match ops[k - 1].gate {
            Gate::Block(inner) => inner.ops@.len(),
            _ => 0nat,
        })
    }
}

proof fn lemma_block_ops_mono(ops: Seq<Operation>, k: int, m: int)
    requires
        0 <= k <= m,
    ensures
        block_ops_upto(ops, k) <= block_ops_upto(ops, m),
    decreases m - k,
{
    if k < m {
        lemma_block_ops_mono(ops, k, m - 1);
    }
}

/// The number of top-level `Block`s and the number of operations grouped
/// directly inside them: what blocking did, since it only repackages gates.
pub fn block_stats(circuit: &Circuit) -> (r: (usize, usize))
    requires
        block_ops_upto(circuit.ops@, circuit.ops@.len() as int) <= usize::MAX,
    ensures
        r.0 == blocks_upto(circuit.ops@, circuit.ops@.len() as int),
        r.1 == block_ops_upto(circuit.ops@, circuit.ops@.len() as int),
{
    let mut num_blocks: usize = 0;
    let mut grouped_gates: usize = 0;
    let mut k: usize = 0;
    while k < circuit.ops.len()
        invariant
            k <= circuit.ops@.len(),
            num_blocks == blocks_upto(circuit.ops@, k as int),
            num_blocks <= k,
            grouped_gates == block_ops_upto(circuit.ops@, k as int),
            block_ops_upto(circuit.ops@, circuit.ops@.len() as int) <= usize::MAX,
        decreases circuit.ops@.len() - k,
    {
        proof { lemma_block_ops_mono(circuit.ops@, k as int + 1, circuit.ops@.len() as int); }
        match &circuit.ops[k].gate {
            Gate::Block(inner) => {
                num_blocks += 1;
                grouped_gates += inner.ops.len();
            },
            _ => {},
        }
        k += 1;
    }
    (num_blocks, grouped_gates)
}

/// Whether blocks fit among the first `k` operations depends on those
/// operations alone.
pub(crate) proof fn lemma_blocks_fit_same_prefix(c1: Circuit, c2: Circuit, k: int)
    requires
        0 <= k <= c1.ops@.len(),
        k <= c2.ops@.len(),
        forall|i: int| 0 <= i < k ==> c1.ops@[i] == c2.ops@[i],
    ensures
        blocks_fit_upto(c1, k) == blocks_fit_upto(c2, k),
    decreases k,
{
    if k > 0 {
        lemma_blocks_fit_same_prefix(c1, c2, k - 1);
        assert(c1.ops@[k - 1] == c2.ops@[k - 1]);
    }
}

/// A circuit without blocks has only fitting blocks.
pub(crate) proof fn lemma_flat_blocks_fit(c: Circuit, k: int)
    requires
        0 <= k <= c.ops@.len(),
        no_blocks(ops_view(c)),
    ensures
        blocks_fit_upto(c, k),
    decreases k,
{
    if k > 0 {
        lemma_flat_blocks_fit(c, k - 1);
        assert(ops_view(c)[k - 1] == op_view(c.ops@[k - 1]));
    }
}

} // verus!
