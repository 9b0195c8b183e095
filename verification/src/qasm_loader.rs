//! The line-by-line state of the QASM reader: which lines are skipped, gate
//! definitions being collected, and the qubit registers declared so far.
//! Each line of the file, with its comment removed and trimmed, either
//! changes this state, asks for the circuit to start over with more qubits,
//! or is a gate call for the caller to evaluate (its parameters are
//! floating-point expressions).
use vstd::prelude::*;
use crate::qasm::{body_op, body_op_ok, gate_header, gate_header_ok, parse_body_op, parse_gate_header,
    parse_register_decl, register_decl, register_decl_ok, strip_comment, strs, without_comment, BodyOp, GateDef};
use crate::text::{str_chars, trim_seq, trim_string};

verus! {

/// `s` begins with `p`.
pub open spec fn starts(s: Seq<char>, p: Seq<char>) -> bool {
    s.len() >= p.len() && s.take(p.len() as int) == p
}

/// `p` occurs somewhere in `s`.
pub open spec fn has_sub(s: Seq<char>, p: Seq<char>) -> bool {
    exists|i: int| 0 <= i && i + p.len() <= s.len() && #[trigger] s.subrange(i, i + p.len()) == p
}

/// A line the reader passes over outside a gate definition: empty, a
/// header, an include, a classical register, a brace, a barrier or a
/// measurement.
pub open spec fn skipped(t: Seq<char>) -> bool {
    ||| t.len() == 0
    ||| starts(t, "OPENQASM"@)
    ||| starts(t, "include"@)
    ||| starts(t, "creg"@)
    ||| starts(t, "bit["@)
    ||| starts(t, "{"@)
    ||| starts(t, "}"@)
    ||| starts(t, "barrier"@)
    ||| starts(t, "measure"@)
    ||| has_sub(t, " = measure"@)
}

/// A line declares a quantum register.
pub open spec fn declares_register(t: Seq<char>) -> bool {
    starts(t, "qreg"@) || starts(t, "qubit["@)
}

/// The text a line stands for: without its comment, trimmed.
pub open spec fn line_text(line: Seq<char>) -> Seq<char> {
    trim_seq(without_comment(line))
}

/// What a line asks of the caller.
pub enum LineEvent {
    /// Nothing.
    Nothing,
    /// A register was declared: the circuit starts over with this many qubits.
    Resize(usize),
    /// A gate call: its text, without comment, trimmed.
    Call(String),
}

/// The reader's state.
pub struct QasmLoader {
    /// Gate definitions read so far, by name; a later one shadows an earlier one.
    pub defs: Vec<(String, GateDef)>,
    /// The definition whose body is being read, if any.
    pub defining: Option<(String, GateDef)>,
    /// Registers declared so far, with the index of their first qubit; a
    /// later one shadows an earlier one.
    pub registers: Vec<(String, usize)>,
    /// The number of qubits declared so far.
    pub total_qubits: usize,
}

/// The last entry named `name` among the first `k` of `s`.
pub open spec fn last_named<T>(s: Seq<(String, T)>, name: Seq<char>, k: int) -> Option<int>
    decreases k,
{
    if k <= 0 { None } else if s[k - 1].0@ == name { Some(k - 1) } else { last_named(s, name, k - 1) }
}

/// Reading the line stops with a panic: a declaration, header or body
/// statement whose brackets come in the wrong order, or a register that
/// takes the qubit count past the largest machine integer.
pub open spec fn line_panics(st: QasmLoader, line: Seq<char>) -> bool {
    let t = line_text(line);
    if st.defining is Some {
        t != "{"@ && t != "}"@ && t.len() != 0 && !body_op_ok(t)
    } else if skipped(t) {
        false
    } else if starts(t, "gate "@) {
        !gate_header_ok(t)
    } else if declares_register(t) {
        !register_decl_ok(t) || (register_decl(t) matches Ok((_, n)) && st.total_qubits + n > usize::MAX)
    } else {
        false
    }
}

/// `v` spells `w`.
fn same_text(v: &Vec<char>, w: &str) -> (r: bool)
    ensures
        r == (v@ == w@),
{
    let wc = str_chars(w);
    if v.len() != wc.len() {
        return false;
    }
    let mut i: usize = 0;
    while i < v.len()
        invariant
            i <= v@.len(),
            v@.len() == wc@.len(),
            wc@ == w@,
            forall|j: int| 0 <= j < i ==> v@[j] == wc@[j],
        decreases v@.len() - i,
    {
        if v[i] != wc[i] {
            return false;
        }
        i += 1;
    }
    assert(v@ =~= wc@);
    true
}

/// Whether `v[a..]` begins with `w`.
fn starts_at(v: &Vec<char>, a: usize, w: &Vec<char>) -> (r: bool)
    requires
        a <= v@.len(),
    ensures
        r == (a + w@.len() <= v@.len() && v@.subrange(a as int, a + w@.len()) == w@),
{
    if v.len() - a < w.len() {
        return false;
    }
    let vl = v.len();
    let mut i: usize = 0;
    while i < w.len()
        invariant
            i <= w@.len(),
            vl == v@.len(),
            a + w@.len() <= v@.len(),
            forall|j: int| 0 <= j < i ==> v@[a + j] == w@[j],
        decreases w@.len() - i,
    {
        if v[a + i] != w[i] {
            assert(v@.subrange(a as int, a + w@.len())[i as int] != w@[i as int]);
            return false;
        }
        i += 1;
    }
    assert(v@.subrange(a as int, a + w@.len()) =~= w@);
    true
}

/// Whether `v` begins with `p`.
fn starts_with(v: &Vec<char>, p: &str) -> (r: bool)
    ensures
        r == starts(v@, p@),
{
    let pc = str_chars(p);
    let r = starts_at(v, 0, &pc);
    proof {
        if v@.len() >= pc@.len() {
            assert(v@.subrange(0, pc@.len() as int) =~= v@.take(pc@.len() as int));
        }
    }
    r
}

/// Whether `p` occurs in `v`.
fn contains_text(v: &Vec<char>, p: &str) -> (r: bool)
    ensures
        r == has_sub(v@, p@),
{
    let pc = str_chars(p);
    if pc.len() > v.len() {
        proof {
            assert forall|j: int| 0 <= j && j + p@.len() <= v@.len() implies #[trigger] v@.subrange(j, j + p@.len()) != p@ by {}
        }
        return false;
    }
    if pc.len() == 0 {
        assert(v@.subrange(0, 0 + p@.len() as int) =~= p@);
        return true;
    }
    let vl = v.len();
    let last = vl - pc.len();
    let mut i: usize = 0;
    while i <= last
        invariant
            pc@ == p@,
            last == v@.len() - pc@.len(),
            pc@.len() > 0,
            vl == v@.len(),
            last < vl,
            i <= last + 1,
            forall|j: int| 0 <= j < i && j + pc@.len() <= v@.len() ==> #[trigger] v@.subrange(j, j + pc@.len()) != pc@,
        decreases last + 1 - i,
    {
        if starts_at(v, i, &pc) {
            return true;
        }
        i += 1;
    }
    proof {
        assert forall|j: int| 0 <= j && j + p@.len() <= v@.len() implies #[trigger] v@.subrange(j, j + p@.len()) != p@ by {
            assert(j < i);
        }
    }
    false
}

impl QasmLoader {
    /// A reader that has seen nothing yet.
    pub fn new() -> (l: Self)
        ensures
            l.defs@.len() == 0,
            l.defining is None,
            l.registers@.len() == 0,
            l.total_qubits == 0,
    {
        QasmLoader { defs: Vec::new(), defining: None, registers: Vec::new(), total_qubits: 0 }
    }

    /// Reads one line of the file. Inside a gate definition: `{` and empty
    /// lines are passed over, `}` ends the definition (which joins the
    /// definitions), and any other line is a body statement added to it.
    /// Outside: skipped lines give nothing; `gate ...` starts a definition;
    /// `qreg ...` or `qubit[...` declares a register placed after the qubits
    /// declared so far, and the circuit starts over with the new total; any
    /// other line is a gate call handed back. A line that does not parse
    /// gives the parser's error and leaves the state as it was.
    pub fn read_line(&mut self, line: &str) -> (r: Result<LineEvent, String>)
        requires
            !line_panics(*old(self), line@),
        ensures
            ({
                let t = line_text(line@);
                let o = *old(self);
                let f = *final(self);
                if o.defining is Some {
                    if t == "{"@ || t.len() == 0 {
                        r matches Ok(LineEvent::Nothing) && f == o
                    } else if t == "}"@ {
                        &&& r matches Ok(LineEvent::Nothing)
                        &&& f.defs@ == o.defs@.push(o.defining.unwrap())
                        &&& f.defining is None
                        &&& f.registers == o.registers
                        &&& f.total_qubits == o.total_qubits
                    } else {
                        match body_op(t) {
                            Err(e) => r matches Err(m) && m@ == e && f == o,
                            Ok((name, params, qubits)) => {
                                &&& r matches Ok(LineEvent::Nothing)
                                &&& f.defs == o.defs
                                &&& f.registers == o.registers
                                &&& f.total_qubits == o.total_qubits
                                &&& f.defining matches Some((n, d)) && n == o.defining.unwrap().0
                                    && d.param_formals == o.defining.unwrap().1.param_formals
                                    && d.qubit_formals == o.defining.unwrap().1.qubit_formals
                                    && d.body@.len() == o.defining.unwrap().1.body@.len() + 1
                                    && d.body@.drop_last() == o.defining.unwrap().1.body@
                                    && d.body@.last().name@ == name
                                    && strs(d.body@.last().param_exprs@) == params
                                    && strs(d.body@.last().qubit_formals@) == qubits
                            },
                        }
                    }
                } else if skipped(t) {
                    r matches Ok(LineEvent::Nothing) && f == o
                } else if starts(t, "gate "@) {
                    match gate_header(t) {
                        Err(e) => r matches Err(m) && m@ == e && f == o,
                        Ok((name, params, qubits)) => {
                            &&& r matches Ok(LineEvent::Nothing)
                            &&& f.defs == o.defs
                            &&& f.registers == o.registers
                            &&& f.total_qubits == o.total_qubits
                            &&& f.defining matches Some((n, d)) && n@ == name && strs(d.param_formals@) == params
                                && strs(d.qubit_formals@) == qubits && d.body@.len() == 0
                        },
                    }
                } else if declares_register(t) {
                    match register_decl(t) {
                        Err(e) => r matches Err(m) && m@ == e && f == o,
                        Ok((name, n)) => {
                            &&& r matches Ok(LineEvent::Resize(total)) && total == o.total_qubits + n
                            &&& f.total_qubits == o.total_qubits + n
                            &&& f.registers@.len() == o.registers@.len() + 1
                            &&& f.registers@.drop_last() == o.registers@
                            &&& f.registers@.last().0@ == name
                            &&& f.registers@.last().1 == o.total_qubits
                            &&& f.defs == o.defs
                            &&& f.defining is None
                        },
                    }
                } else {
                    r matches Ok(LineEvent::Call(c)) && c@ == t && f == o
                }
            }),
    {
        let s = strip_comment(line);
        let ts = trim_string(s.as_str());
        let t = str_chars(ts.as_str());
        proof {
            assert(t@ == line_text(line@));
        }
        if self.defining.is_some() {
            if same_text(&t, "{") || t.len() == 0 {
                return Ok(LineEvent::Nothing);
            }
            if same_text(&t, "}") {
                let d = self.defining.take().unwrap();
                self.defs.push(d);
                return Ok(LineEvent::Nothing);
            }
            match parse_body_op(ts.as_str()) {
                Err(e) => { return Err(e); },
                Ok(op) => {
                    let (n, mut d) = self.defining.take().unwrap();
                    let ghost b0 = d.body@;
                    d.body.push(op);
                    proof {
                        assert(d.body@.drop_last() =~= b0);
                    }
                    self.defining = Some((n, d));
                    return Ok(LineEvent::Nothing);
                },
            }
        }
        if t.len() == 0 || starts_with(&t, "OPENQASM") || starts_with(&t, "include") || starts_with(&t, "creg")
            || starts_with(&t, "bit[") || starts_with(&t, "{") || starts_with(&t, "}") || starts_with(&t, "barrier")
            || starts_with(&t, "measure") || contains_text(&t, " = measure") {
            return Ok(LineEvent::Nothing);
        }
        if starts_with(&t, "gate ") {
            match parse_gate_header(ts.as_str()) {
                Err(e) => { return Err(e); },
                Ok((name, params, qubits)) => {
                    self.defining = Some((name, GateDef { param_formals: params, qubit_formals: qubits, body: Vec::new() }));
                    return Ok(LineEvent::Nothing);
                },
            }
        }
        if starts_with(&t, "qreg") || starts_with(&t, "qubit[") {
            match parse_register_decl(ts.as_str()) {
                Err(e) => { return Err(e); },
                Ok((name, n)) => {
                    let ghost r0 = self.registers@;
                    self.registers.push((name, self.total_qubits));
                    self.total_qubits = self.total_qubits + n;
                    proof {
                        assert(self.registers@.drop_last() =~= r0);
                    }
                    return Ok(LineEvent::Resize(self.total_qubits));
                },
            }
        }
        Ok(LineEvent::Call(ts))
    }

    /// The first qubit of the register named `name`, if one is declared
    /// (the latest declaration of that name).
    pub fn register_offset(&self, name: &str) -> (r: Option<usize>)
        ensures
            r == (match last_named(self.registers@, name@, self.registers@.len() as int) {
                Some(i) => Some(self.registers@[i].1),
                None => None,
            }),
    {
        let nc = str_chars(name);
        let mut k = self.registers.len();
        while k > 0
            invariant
                k <= self.registers@.len(),
                last_named(self.registers@, name@, k as int) == last_named(self.registers@, name@, self.registers@.len() as int),
            decreases k,
        {
            let rc = str_chars(self.registers[k - 1].0.as_str());
            if same_text(&rc, name) {
                proof {
                    assert(rc@ == name@);
                }
                return Some(self.registers[k - 1].1);
            }
            k -= 1;
        }
        None
    }

    /// The latest definition read for gate name `name`, if any.
    pub fn find_def(&self, name: &str) -> (r: Option<&GateDef>)
        ensures
            r == (match last_named(self.defs@, name@, self.defs@.len() as int) {
                Some(i) => Some(&self.defs@[i].1),
                None => None,
            }),
    {
        let mut k = self.defs.len();
        while k > 0
            invariant
                k <= self.defs@.len(),
                last_named(self.defs@, name@, k as int) == last_named(self.defs@, name@, self.defs@.len() as int),
            decreases k,
        {
            let rc = str_chars(self.defs[k - 1].0.as_str());
            if same_text(&rc, name) {
                return Some(&self.defs[k - 1].1);
            }
            k -= 1;
        }
        None
    }
}

} // verus!
