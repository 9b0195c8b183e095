//! The QASM gate vocabulary: how each gate name of a circuit file becomes
//! operations of a `Circuit`. Names are already lower case; parameters are
//! angles given by their `f64` bit patterns. Gates outside the circuit's own
//! vocabulary are written by exact identities (`rx`, `ry`, `sx` as `U3`;
//! `ccx` by the seven-T decomposition; `cswap` as a Toffoli between two CNOTs;
//! `cry`, `crz`, `rzz` by their qelib1 definitions). An unknown name, or too
//! few parameters or qubit operands, is an error that leaves the circuit as
//! it was.
use vstd::prelude::*;
use crate::qgate::{gate_arity, ops_view, Circuit, Gate, Operation};
use crate::text::str_chars;

verus! {

/// The bit pattern of the `f64` pi/2.
pub const HALF_PI_BITS: u64 = 0x3FF9_21FB_5444_2D18;

/// The bit pattern of the `f64` -pi/2.
pub const NEG_HALF_PI_BITS: u64 = 0xBFF9_21FB_5444_2D18;

/// The bit pattern of `-x` for the `f64` with bit pattern `x`: the sign bit flipped.
pub open spec fn neg_bits(x: u64) -> u64 {
    x ^ 0x8000_0000_0000_0000u64
}

/// An operation as a value: its gate and qubits.
pub type OpSpec = (Gate, Seq<usize>);

/// Why a gate could not be added.
#[derive(Debug, Clone, Copy, PartialEq, Eq, Structural)]
pub enum GateError {
    /// `needed` parameters are required and `got` were given.
    Parameters { needed: usize, got: usize },
    /// `needed` qubit operands are required and fewer were given.
    Qubits { needed: usize },
    /// No gate has this name.
    Unsupported,
}

/// The seven-T Toffoli on controls `a`, `b` and target `c`.
pub open spec fn toffoli_ops(a: usize, b: usize, c: usize) -> Seq<OpSpec> {
    seq![
        (Gate::H, seq![c]), (Gate::Cx, seq![b, c]), (Gate::Tdg, seq![c]), (Gate::Cx, seq![a, c]),
        (Gate::T, seq![c]), (Gate::Cx, seq![b, c]), (Gate::Tdg, seq![c]), (Gate::Cx, seq![a, c]),
        (Gate::T, seq![b]), (Gate::T, seq![c]), (Gate::H, seq![c]), (Gate::Cx, seq![a, b]),
        (Gate::T, seq![a]), (Gate::Tdg, seq![b]), (Gate::Cx, seq![a, b])
    ]
}

/// A gate without parameters on one qubit, by name.
pub open spec fn plain_gate(name: Seq<char>) -> Option<Gate> {
    if name == "h"@ { Some(Gate::H) }
    else if name == "x"@ { Some(Gate::X) }
    else if name == "y"@ { Some(Gate::Y) }
    else if name == "z"@ { Some(Gate::Z) }
    else if name == "s"@ { Some(Gate::S) }
    else if name == "sdg"@ { Some(Gate::Sdg) }
    else if name == "t"@ { Some(Gate::T) }
    else if name == "tdg"@ { Some(Gate::Tdg) }
    else if name == "id"@ { Some(Gate::Id) }
    else { None }
}

/// A one-qubit gate made of at least `k` parameters, or the error.
pub open spec fn one_qubit(p: Seq<u64>, k: usize, g: Gate, q: Seq<usize>) -> Result<Seq<OpSpec>, GateError> {
    if p.len() < k { Err(GateError::Parameters { needed: k, got: p.len() as usize }) } else { Ok(seq![(g, seq![q[0]])]) }
}

/// The operations that gate `name` with parameters `p` on qubits `q`
/// adds, or why it cannot. `half` is the bit pattern of `p[0] / 2`, used by
/// `cry` and `crz`.
pub open spec fn gate_ops(name: Seq<char>, p: Seq<u64>, q: Seq<usize>, half: u64) -> Result<Seq<OpSpec>, GateError> {
    if plain_gate(name) is Some {
        Ok(seq![(plain_gate(name).unwrap(), seq![q[0]])])
    } else if name == "rz"@ || name == "u1"@ {
        one_qubit(p, 1, Gate::Rz(p[0]), q)
    } else if name == "u"@ || name == "u3"@ {
        one_qubit(p, 3, Gate::U3(p[0], p[1], p[2]), q)
    } else if name == "u2"@ {
        one_qubit(p, 2, Gate::U3(HALF_PI_BITS, p[0], p[1]), q)
    } else if name == "rx"@ {
        one_qubit(p, 1, Gate::U3(p[0], NEG_HALF_PI_BITS, HALF_PI_BITS), q)
    } else if name == "ry"@ {
        one_qubit(p, 1, Gate::U3(p[0], 0, 0), q)
    } else if name == "sx"@ {
        Ok(seq![(Gate::U3(HALF_PI_BITS, NEG_HALF_PI_BITS, HALF_PI_BITS), seq![q[0]])])
    } else if name == "sxdg"@ {
        Ok(seq![(Gate::U3(NEG_HALF_PI_BITS, NEG_HALF_PI_BITS, HALF_PI_BITS), seq![q[0]])])
    } else if name == "cx"@ || name == "cnot"@ || name == "cz"@ || name == "swap"@ {
        if q.len() < 2 {
            Err(GateError::Qubits { needed: 2 })
        } else {
            let g = if name == "cz"@ { Gate::Cz } else if name == "swap"@ { Gate::Swap } else { Gate::Cx };
            Ok(seq![(g, seq![q[0], q[1]])])
        }
    } else if name == "cry"@ || name == "crz"@ || name == "rzz"@ {
        if q.len() < 2 {
            Err(GateError::Qubits { needed: 2 })
        } else if p.len() < 1 {
            Err(GateError::Parameters { needed: 1, got: 0 })
        } else {
            let (a, b) = (q[0], q[1]);
            Ok(if name == "cry"@ {
                seq![(Gate::U3(half, 0, 0), seq![b]), (Gate::Cx, seq![a, b]), (Gate::U3(neg_bits(half), 0, 0), seq![b]), (Gate::Cx, seq![a, b])]
            } else if name == "crz"@ {
                seq![(Gate::Rz(half), seq![b]), (Gate::Cx, seq![a, b]), (Gate::Rz(neg_bits(half)), seq![b]), (Gate::Cx, seq![a, b])]
            } else {
                seq![(Gate::Cx, seq![a, b]), (Gate::Rz(p[0]), seq![b]), (Gate::Cx, seq![a, b])]
            })
        }
    } else if name == "ccx"@ || name == "toffoli"@ || name == "ccnot"@ {
        if q.len() < 3 { Err(GateError::Qubits { needed: 3 }) } else { Ok(toffoli_ops(q[0], q[1], q[2])) }
    } else if name == "cswap"@ || name == "fredkin"@ {
        if q.len() < 3 {
            Err(GateError::Qubits { needed: 3 })
        } else {
            Ok(seq![(Gate::Cx, seq![q[2], q[1]])] + toffoli_ops(q[0], q[1], q[2]) + seq![(Gate::Cx, seq![q[2], q[1]])])
        }
    } else {
        Err(GateError::Unsupported)
    }
}


/// The inputs on which adding a gate stops with a panic: a one-qubit gate
/// whose parameters suffice but that is given no qubit.
pub open spec fn gate_panics(name: Seq<char>, p: Seq<u64>, q: Seq<usize>, half: u64) -> bool {
    q.len() == 0 && gate_ops(name, p, q, half) is Ok
}

/// `v` spells the word `w`.
fn is_word(v: &Vec<char>, w: &str) -> (r: bool)
    ensures
        r == (v@ == w@),
{
    let wc = str_chars(w);
    if v.len() != wc.len() {
        return false;
    }
    let mut i: usize = 0;
    while i < v.len()
        invariant
            i <= v@.len(),
            v@.len() == wc@.len(),
            wc@ == w@,
            forall|j: int| 0 <= j < i ==> v@[j] == wc@[j],
        decreases v@.len() - i,
    {
        if v[i] != wc[i] {
            return false;
        }
        i += 1;
    }
    assert(v@ =~= wc@);
    true
}

/// Appends one operation.
fn push_op(c: &mut Circuit, g: Gate, qs: Vec<usize>)
    requires
        gate_arity(g) == qs@.len(),
    ensures
        final(c).n_qubits == old(c).n_qubits,
        ops_view(*final(c)) == ops_view(*old(c)).push((g, qs@)),
{
    let ghost qv = qs@;
    c.push(g, qs);
    assert(ops_view(*c) =~= ops_view(*old(c)).push((g, qv)));
}

/// The qubit list `[a]`.
fn on1(a: usize) -> (r: Vec<usize>)
    ensures
        r@ == seq![a],
{
    let mut r: Vec<usize> = Vec::new();
    r.push(a);
    assert(r@ =~= seq![a]);
    r
}

/// The qubit list `[a, b]`.
fn on2(a: usize, b: usize) -> (r: Vec<usize>)
    ensures
        r@ == seq![a, b],
{
    let mut r: Vec<usize> = Vec::new();
    r.push(a);
    r.push(b);
    assert(r@ =~= seq![a, b]);
    r
}

/// The bit pattern of `-x`.
fn neg(x: u64) -> (r: u64)
    ensures
        r == neg_bits(x),
{
    x ^ 0x8000_0000_0000_0000u64
}

/// Appends the seven-T Toffoli on controls `a`, `b` and target `c`.
pub fn push_toffoli(circuit: &mut Circuit, a: usize, b: usize, c: usize)
    ensures
        final(circuit).n_qubits == old(circuit).n_qubits,
        ops_view(*final(circuit)) == ops_view(*old(circuit)) + toffoli_ops(a, b, c),
{
    let ghost o = ops_view(*circuit);
    push_op(circuit, Gate::H, on1(c));
    push_op(circuit, Gate::Cx, on2(b, c));
    push_op(circuit, Gate::Tdg, on1(c));
    push_op(circuit, Gate::Cx, on2(a, c));
    push_op(circuit, Gate::T, on1(c));
    push_op(circuit, Gate::Cx, on2(b, c));
    push_op(circuit, Gate::Tdg, on1(c));
    push_op(circuit, Gate::Cx, on2(a, c));
    push_op(circuit, Gate::T, on1(b));
    push_op(circuit, Gate::T, on1(c));
    push_op(circuit, Gate::H, on1(c));
    push_op(circuit, Gate::Cx, on2(a, b));
    push_op(circuit, Gate::T, on1(a));
    push_op(circuit, Gate::Tdg, on1(b));
    push_op(circuit, Gate::Cx, on2(a, b));
    assert(ops_view(*circuit) =~= o + toffoli_ops(a, b, c));
}

/// Appends the one-qubit gate `g` on `q` when `p` has at least `k` parameters.
fn push_one(circuit: &mut Circuit, p: &Vec<u64>, k: usize, g: Gate, q: &Vec<usize>) -> (r: Result<(), GateError>)
    requires
        gate_arity(g) == 1,
        p@.len() >= k ==> q@.len() > 0,
    ensures
        match one_qubit(p@, k, g, q@) {
            Ok(s) => r is Ok && ops_view(*final(circuit)) == ops_view(*old(circuit)) + s && final(circuit).n_qubits == old(circuit).n_qubits,
            Err(e) => r == Err::<(), GateError>(e) && *final(circuit) == *old(circuit),
        },
{
    if p.len() < k {
        return Err(GateError::Parameters { needed: k, got: p.len() });
    }
    let ghost o = ops_view(*circuit);
    push_op(circuit, g, on1(q[0]));
    assert(ops_view(*circuit) =~= o + seq![(g, seq![q@[0]])]);
    Ok(())
}

/// Adds gate `name` with parameters `params` on `qubits` to the circuit,
/// as `gate_ops` lists its operations; `half` is the bit pattern of
/// `params[0] / 2`, used by `cry` and `crz`. On an error the circuit is left
/// as it was.
pub fn push_gate(circuit: &mut Circuit, name: &str, params: &Vec<u64>, qubits: &Vec<usize>, half: u64) -> (r: Result<(), GateError>)
    requires
        !gate_panics(name@, params@, qubits@, half),
    ensures
        match gate_ops(name@, params@, qubits@, half) {
            Ok(s) => r is Ok && ops_view(*final(circuit)) == ops_view(*old(circuit)) + s
                && final(circuit).n_qubits == old(circuit).n_qubits,
            Err(e) => r == Err::<(), GateError>(e) && *final(circuit) == *old(circuit),
        },
{
    let n = str_chars(name);
    let ghost o = ops_view(*circuit);
    let plain = if is_word(&n, "h") { Some(Gate::H) }
        else if is_word(&n, "x") { Some(Gate::X) }
        else if is_word(&n, "y") { Some(Gate::Y) }
        else if is_word(&n, "z") { Some(Gate::Z) }
        else if is_word(&n, "s") { Some(Gate::S) }
        else if is_word(&n, "sdg") { Some(Gate::Sdg) }
        else if is_word(&n, "t") { Some(Gate::T) }
        else if is_word(&n, "tdg") { Some(Gate::Tdg) }
        else if is_word(&n, "id") { Some(Gate::Id) }
        else { None };
    assert(plain == plain_gate(name@));
    if let Some(g) = plain {
        push_op(circuit, g, on1(qubits[0]));
        assert(ops_view(*circuit) =~= o + seq![(g, seq![qubits@[0]])]);
        return Ok(());
    }
    if is_word(&n, "rz") || is_word(&n, "u1") {
        let p0 = if params.len() > 0 { params[0] } else { 0 };
        return push_one(circuit, params, 1, Gate::Rz(p0), qubits);
    }
    if is_word(&n, "u") || is_word(&n, "u3") {
        let (p0, p1, p2) = if params.len() >= 3 { (params[0], params[1], params[2]) } else { (0, 0, 0) };
        return push_one(circuit, params, 3, Gate::U3(p0, p1, p2), qubits);
    }
    if is_word(&n, "u2") {
        let (p0, p1) = if params.len() >= 2 { (params[0], params[1]) } else { (0, 0) };
        return push_one(circuit, params, 2, Gate::U3(HALF_PI_BITS, p0, p1), qubits);
    }
    if is_word(&n, "rx") {
        let p0 = if params.len() > 0 { params[0] } else { 0 };
        return push_one(circuit, params, 1, Gate::U3(p0, NEG_HALF_PI_BITS, HALF_PI_BITS), qubits);
    }
    if is_word(&n, "ry") {
        let p0 = if params.len() > 0 { params[0] } else { 0 };
        return push_one(circuit, params, 1, Gate::U3(p0, 0, 0), qubits);
    }
    if is_word(&n, "sx") {
        return push_one(circuit, params, 0, Gate::U3(HALF_PI_BITS, NEG_HALF_PI_BITS, HALF_PI_BITS), qubits);
    }
    if is_word(&n, "sxdg") {
        return push_one(circuit, params, 0, Gate::U3(NEG_HALF_PI_BITS, NEG_HALF_PI_BITS, HALF_PI_BITS), qubits);
    }
    let is_cz = is_word(&n, "cz");
    let is_swap = is_word(&n, "swap");
    if is_word(&n, "cx") || is_word(&n, "cnot") || is_cz || is_swap {
        if qubits.len() < 2 {
            return Err(GateError::Qubits { needed: 2 });
        }
        let g = if is_cz { Gate::Cz } else if is_swap { Gate::Swap } else { Gate::Cx };
        push_op(circuit, g, on2(qubits[0], qubits[1]));
        assert(ops_view(*circuit) =~= o + seq![(g, seq![qubits@[0], qubits@[1]])]);
        return Ok(());
    }
    let is_cry = is_word(&n, "cry");
    let is_crz = is_word(&n, "crz");
    if is_cry || is_crz || is_word(&n, "rzz") {
        if qubits.len() < 2 {
            return Err(GateError::Qubits { needed: 2 });
        }
        if params.len() < 1 {
            return Err(GateError::Parameters { needed: 1, got: 0 });
        }
        let (a, b) = (qubits[0], qubits[1]);
        if is_cry {
            push_op(circuit, Gate::U3(half, 0, 0), on1(b));
            push_op(circuit, Gate::Cx, on2(a, b));
            push_op(circuit, Gate::U3(neg(half), 0, 0), on1(b));
            push_op(circuit, Gate::Cx, on2(a, b));
            assert(ops_view(*circuit) =~= o + seq![(Gate::U3(half, 0, 0), seq![b]), (Gate::Cx, seq![a, b]),
                (Gate::U3(neg_bits(half), 0, 0), seq![b]), (Gate::Cx, seq![a, b])]);
        } else if is_crz {
            push_op(circuit, Gate::Rz(half), on1(b));
            push_op(circuit, Gate::Cx, on2(a, b));
            push_op(circuit, Gate::Rz(neg(half)), on1(b));
            push_op(circuit, Gate::Cx, on2(a, b));
            assert(ops_view(*circuit) =~= o + seq![(Gate::Rz(half), seq![b]), (Gate::Cx, seq![a, b]),
                (Gate::Rz(neg_bits(half)), seq![b]), (Gate::Cx, seq![a, b])]);
        } else {
            push_op(circuit, Gate::Cx, on2(a, b));
            push_op(circuit, Gate::Rz(params[0]), on1(b));
            push_op(circuit, Gate::Cx, on2(a, b));
            assert(ops_view(*circuit) =~= o + seq![(Gate::Cx, seq![a, b]), (Gate::Rz(params@[0]), seq![b]), (Gate::Cx, seq![a, b])]);
        }
        return Ok(());
    }
    if is_word(&n, "ccx") || is_word(&n, "toffoli") || is_word(&n, "ccnot") {
        if qubits.len() < 3 {
            return Err(GateError::Qubits { needed: 3 });
        }
        push_toffoli(circuit, qubits[0], qubits[1], qubits[2]);
        return Ok(());
    }
    if is_word(&n, "cswap") || is_word(&n, "fredkin") {
        if qubits.len() < 3 {
            return Err(GateError::Qubits { needed: 3 });
        }
        let (c, t1, t2) = (qubits[0], qubits[1], qubits[2]);
        push_op(circuit, Gate::Cx, on2(t2, t1));
        push_toffoli(circuit, c, t1, t2);
        push_op(circuit, Gate::Cx, on2(t2, t1));
        assert(ops_view(*circuit) =~= o + (seq![(Gate::Cx, seq![t2, t1])] + toffoli_ops(c, t1, t2) + seq![(Gate::Cx, seq![t2, t1])]));
        return Ok(());
    }
    Err(GateError::Unsupported)
}


/// With fewer than two qubit operands, whether a gate's operations can be
/// formed does not depend on the operands.
proof fn lemma_ok_without_operands(name: Seq<char>, p: Seq<u64>, q1: Seq<usize>, q2: Seq<usize>, half: u64)
    requires
        q1.len() < 2,
        q2.len() < 2,
    ensures
        (gate_ops(name, p, q1, half) is Ok) == (gate_ops(name, p, q2, half) is Ok),
{
}

/// Whether adding gate `name` with these parameters and qubits would stop
/// with a panic (see `gate_panics`).
pub fn gate_would_panic(name: &str, params: &Vec<u64>, qubits: &Vec<usize>, half: u64) -> (b: bool)
    ensures
        b == gate_panics(name@, params@, qubits@, half),
{
    if qubits.len() > 0 {
        return false;
    }
    let mut scratch = Circuit::new(1);
    let one = on1(0);
    proof {
        lemma_ok_without_operands(name@, params@, qubits@, one@, half);
    }
    push_gate(&mut scratch, name, params, &one, half).is_ok()
}


/// A gate that maps computational basis states to basis states with a phase:
/// CX, T or T-dagger.
pub open spec fn phase_gate(g: Gate) -> bool {
    g is Cx || g is T || g is Tdg
}

/// The effect of a circuit of CX, T and T-dagger gates on the basis state
/// `bits` (the value of each qubit): the resulting bits and the phase gained,
/// in eighths of a turn (T adds one on a qubit holding 1, T-dagger takes one
/// away; CX flips its second qubit when its first holds 1).
pub open spec fn phase_run(ops: Seq<OpSpec>, bits: spec_fn(usize) -> bool, phase: int) -> (spec_fn(usize) -> bool, int)
    decreases ops.len(),
{
    if ops.len() == 0 {
        (bits, phase)
    } else {
        let g = ops[0].0;
        let q = ops[0].1;
        let next: (spec_fn(usize) -> bool, int) = if g is Cx {
            (|x: usize| if x == q[1] { bits(q[1]) != bits(q[0]) } else { bits(x) }, phase)
        } else if g is T {
            (bits, phase + if bits(q[0]) { 1int } else { 0int })
        } else if g is Tdg {
            (bits, phase - if bits(q[0]) { 1int } else { 0int })
        } else {
            (bits, phase)
        };
        phase_run(ops.skip(1), next.0, next.1)
    }
}

/// The Toffoli decomposition is the Toffoli gate: it is `H` on the target,
/// a circuit of CX, T and T-dagger gates, `H` on the target again, then CX,
/// T and T-dagger gates that leave the target alone (so they commute with
/// that `H`); and the CX/T part, run on any basis state, gives back the same
/// bits with phase pi exactly when both controls and the target hold 1. That
/// is the doubly controlled Z, which the two `H` on the target turn into the
/// doubly controlled X.
pub proof fn lemma_toffoli_is_ccx(a: usize, b: usize, c: usize, bits: spec_fn(usize) -> bool)
    requires
        a != b,
        a != c,
        b != c,
    ensures
        ({
            let ops = toffoli_ops(a, b, c);
            let mid = ops.subrange(1, 10);
            let tail = ops.subrange(11, 15);
            let r = phase_run(mid + tail, bits, 0);
            &&& ops.len() == 15
            &&& ops[0] == (Gate::H, seq![c])
            &&& ops[10] == (Gate::H, seq![c])
            &&& forall|i: int| 0 <= i < mid.len() ==> phase_gate(#[trigger] mid[i].0)
            &&& forall|i: int| 0 <= i < tail.len() ==> phase_gate(#[trigger] tail[i].0) && !tail[i].1.contains(c)
            &&& forall|x: usize| #[trigger] r.0(x) == bits(x)
            &&& (r.1 - (if bits(a) && bits(b) && bits(c) { 4int } else { 0int })) % 8 == 0
        }),
{
    let ops = toffoli_ops(a, b, c);
    let mid = ops.subrange(1, 10);
    let tail = ops.subrange(11, 15);
    let all = mid + tail;
    assert(all =~= seq![
        (Gate::Cx, seq![b, c]), (Gate::Tdg, seq![c]), (Gate::Cx, seq![a, c]),
        (Gate::T, seq![c]), (Gate::Cx, seq![b, c]), (Gate::Tdg, seq![c]), (Gate::Cx, seq![a, c]),
        (Gate::T, seq![b]), (Gate::T, seq![c]), (Gate::Cx, seq![a, b]),
        (Gate::T, seq![a]), (Gate::Tdg, seq![b]), (Gate::Cx, seq![a, b])
    ]);
    assert forall|i: int| 0 <= i < tail.len() implies phase_gate(#[trigger] tail[i].0) && !tail[i].1.contains(c) by {
        if tail[i].1.contains(c) {
            let j = choose|j: int| 0 <= j < tail[i].1.len() && tail[i].1[j] == c;
        }
    }
    reveal_with_fuel(phase_run, 14);
    let r = phase_run(all, bits, 0);
    assert forall|x: usize| #[trigger] r.0(x) == bits(x) by {}
}

} // verus!
