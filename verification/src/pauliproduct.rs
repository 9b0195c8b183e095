//! Pauli products: the gates of a `.trans` circuit, one per line.
use vstd::prelude::*;
use crate::text::{decimal, decimal_signed, i64_to_string, str_chars, string_from_chars, string_push, usize_to_string, push_str};

verus! {

/// Quantum gate types in the circuit.
/// T gates require magic state distillation; S/SX/CX are Cliffords.
#[derive(Debug, Clone, Copy, PartialEq, Eq, Structural)]
pub enum GateType {
    T,
    S,
    SX,
    CX,
    M,
    Z,
    X,
}

/// The name of a gate type, as its `Debug` form spells it.
pub open spec fn gate_name(g: GateType) -> Seq<char> {
    match g {
        GateType::T => seq!['T'],
        GateType::S => seq!['S'],
        GateType::SX => seq!['S', 'X'],
        GateType::CX => seq!['C', 'X'],
        GateType::M => seq!['M'],
        GateType::Z => seq!['Z'],
        GateType::X => seq!['X'],
    }
}

/// A Clifford gate in the sense of the scheduler: CX, S or SX.
pub open spec fn is_clifford_gate(g: GateType) -> bool {
    g == GateType::CX || g == GateType::S || g == GateType::SX
}

impl GateType {
    /// Returns true if this is a T gate.
    pub fn is_t(&self) -> (r: bool)
        ensures
            r == (*self == GateType::T),
    {
        matches!(self, GateType::T)
    }

    /// Returns true if this is an S gate.
    pub fn is_s(&self) -> (r: bool)
        ensures
            r == (*self == GateType::S),
    {
        matches!(self, GateType::S)
    }

    /// Returns true if this is an SX gate.
    pub fn is_sx(&self) -> (r: bool)
        ensures
            r == (*self == GateType::SX),
    {
        matches!(self, GateType::SX)
    }

    /// Returns true if this is a CX (CNOT) gate.
    pub fn is_cx(&self) -> (r: bool)
        ensures
            r == (*self == GateType::CX),
    {
        matches!(self, GateType::CX)
    }

    /// Returns true if this is a measurement gate.
    pub fn is_m(&self) -> (r: bool)
        ensures
            r == (*self == GateType::M),
    {
        matches!(self, GateType::M)
    }

    /// Returns true if this is a Pauli X gate.
    pub fn is_x(&self) -> (r: bool)
        ensures
            r == (*self == GateType::X),
    {
        matches!(self, GateType::X)
    }

    /// Returns true if this is a Pauli Z gate.
    pub fn is_z(&self) -> (r: bool)
        ensures
            r == (*self == GateType::Z),
    {
        matches!(self, GateType::Z)
    }

    /// Returns true if this is a Clifford gate (CX, S, or SX).
    pub fn is_clifford(&self) -> (r: bool)
        ensures
            r == is_clifford_gate(*self),
    {
        self.is_cx() || self.is_s() || self.is_sx()
    }

    /// Name of this gate, as `Display` writes it (`T`, `S`, `SX`, `CX`, `M`, `Z`, `X`).
    pub fn to_display_string(&self) -> (s: String)
        ensures
            s@ == gate_name(*self),
    {
        let mut s = String::new();
        match self {
            GateType::T => { string_push(&mut s, 'T'); },
            GateType::S => { string_push(&mut s, 'S'); },
            GateType::SX => { string_push(&mut s, 'S'); string_push(&mut s, 'X'); },
            GateType::CX => { string_push(&mut s, 'C'); string_push(&mut s, 'X'); },
            GateType::M => { string_push(&mut s, 'M'); },
            GateType::Z => { string_push(&mut s, 'Z'); },
            GateType::X => { string_push(&mut s, 'X'); },
        }
        assert(s@ =~= gate_name(*self));
        s
    }
}

/// A single Pauli operator (X, Y, or Z) applied to a specific qubit.
#[derive(Debug, Clone, Copy, PartialEq, Eq, Structural)]
pub struct Operator {
    pub qubit: u16,
    pub basis: char,
}

/// How an operator is written: its qubit number followed by its basis, e.g. `3X`.
pub open spec fn operator_text(op: Operator) -> Seq<char> {
    decimal(op.qubit as nat).push(op.basis)
}

/// The operators of a product written one after another.
pub open spec fn operators_text(ops: Seq<Operator>) -> Seq<char>
    decreases ops.len(),
{
    if ops.len() == 0 {
        Seq::empty()
    } else {
        operators_text(ops.drop_last()) + operator_text(ops.last())
    }
}

impl Operator {
    /// The operator as `Display` writes it: qubit number then basis, e.g. `3X`.
    pub fn to_display_string(&self) -> (s: String)
        ensures
            s@ == operator_text(*self),
    {
        let mut s = usize_to_string(self.qubit as usize);
        string_push(&mut s, self.basis);
        s
    }
}

/// Appends the text of every operator to `s`.
fn push_operators_text(s: &mut String, ops: &Vec<Operator>)
    ensures
        final(s)@ == old(s)@ + operators_text(ops@),
{
    let mut i: usize = 0;
    while i < ops.len()
        invariant
            i <= ops.len(),
            s@ == old(s)@ + operators_text(ops@.subrange(0, i as int)),
        decreases ops.len() - i,
    {
        let t = ops[i].to_display_string();
        push_str(s, t.as_str());
        assert(ops@.subrange(0, i + 1).drop_last() =~= ops@.subrange(0, i as int));
        i += 1;
    }
    assert(ops@.subrange(0, ops.len() as int) =~= ops@);
}

/// The entries of an id list separated by `", "`.
pub open spec fn ids_joined(ids: Seq<i32>) -> Seq<char>
    decreases ids.len(),
{
    if ids.len() == 0 {
        Seq::empty()
    } else if ids.len() == 1 {
        decimal_signed(ids[0] as int)
    } else {
        ids_joined(ids.drop_last()) + seq![',', ' '] + decimal_signed(ids.last() as int)
    }
}

/// An id list as its `Debug` form writes it, e.g. `[1, -2]`.
pub open spec fn id_list_text(ids: Seq<i32>) -> Seq<char> {
    seq!['['] + ids_joined(ids) + seq![']']
}

/// A product as its `Display` form writes it.
pub open spec fn product_text(pp: PauliProduct) -> Seq<char> {
    decimal_signed(pp.id as int) + seq![' '] + operators_text(pp.operators@) + seq![' ', '<']
        + gate_name(pp.gate_type) + seq!['>'] + " children "@ + id_list_text(pp.children@)
        + " parents "@ + id_list_text(pp.parents@)
}

/// Appends an id list in its `Debug` form.
fn push_id_list(s: &mut String, ids: &Vec<i32>)
    ensures
        final(s)@ == old(s)@ + id_list_text(ids@),
{
    string_push(s, '[');
    let mut i: usize = 0;
    while i < ids.len()
        invariant
            i <= ids.len(),
            s@ == old(s)@ + seq!['['] + ids_joined(ids@.subrange(0, i as int)),
        decreases ids.len() - i,
    {
        if i > 0 {
            string_push(s, ',');
            string_push(s, ' ');
        }
        let t = i64_to_string(ids[i] as i64);
        push_str(s, t.as_str());
        assert(ids@.subrange(0, i + 1).drop_last() =~= ids@.subrange(0, i as int));
        i += 1;
    }
    assert(ids@.subrange(0, ids.len() as int) =~= ids@);
    string_push(s, ']');
}

/// A character that may stand for one qubit in the body of a product line.
pub open spec fn is_body_char(c: char) -> bool {
    c == '_' || c == 'X' || c == 'Y' || c == 'Z'
}

/// A character that puts a Pauli operator on its qubit.
pub open spec fn is_pauli_char(c: char) -> bool {
    c == 'X' || c == 'Y' || c == 'Z'
}

/// The first position at or after `i` (and at least 1) whose character ends the
/// body of a product line, or the line's length if there is none.
pub open spec fn body_end_from(s: Seq<char>, i: int) -> int
    decreases s.len() - i,
{
    if i >= s.len() {
        s.len() as int
    } else if !is_body_char(s[i]) {
        i
    } else {
        body_end_from(s, i + 1)
    }
}

/// Where the body of a product line ends; position 0 holds the sign.
pub open spec fn body_end(s: Seq<char>) -> int {
    body_end_from(s, 1)
}

/// The operators that the characters at positions `1..i` put on the qubits:
/// position `j` stands for qubit `j - 1`.
pub open spec fn body_operators(s: Seq<char>, i: int) -> Seq<Operator>
    decreases i,
{
    if i <= 1 {
        Seq::empty()
    } else {
        let prev = body_operators(s, i - 1);
        if is_pauli_char(s[i - 1]) {
            prev.push(Operator { qubit: (i - 2) as u16, basis: s[i - 1] })
        } else {
            prev
        }
    }
}

/// Which gate type a `<...>` suffix names, if any.
pub open spec fn gate_of_suffix(t: Seq<char>) -> Option<GateType> {
    if t == seq!['<', 'M', '>'] {
        Some(GateType::M)
    } else if t == seq!['<', 'T', '>'] {
        Some(GateType::T)
    } else if t == seq!['<', 'C', 'X', '>'] {
        Some(GateType::CX)
    } else if t == seq!['<', 'S', '>'] || t == seq!['<', 'S', 'd', 'g', '>'] {
        Some(GateType::S)
    } else if t == seq!['<', 'S', 'X', '>'] || t == seq!['<', 'S', 'X', 'd', 'g', '>'] {
        Some(GateType::SX)
    } else if t == seq!['<', 'Z', '>'] {
        Some(GateType::Z)
    } else if t == seq!['<', 'X', '>'] {
        Some(GateType::X)
    } else {
        None
    }
}

/// Why a product line was refused.
#[derive(Debug, Clone, PartialEq, Eq)]
pub enum ProductParseError {
    /// The `<...>` suffix names no known gate; holds the suffix.
    UnknownGate(String),
    /// A character that is neither `_`, `X`, `Y`, `Z` nor the start of `<...>`;
    /// holds the character and its position.
    IllegalCharacter(char, usize),
}

/// What parsing a product line yields: which gate type it sets (if its line
/// names one) or the error it stops on.
pub enum LineOutcome {
    Parsed(Option<GateType>),
    UnknownGate(Seq<char>),
    Illegal(char, int),
}

/// The outcome of parsing the product line `s`.
pub open spec fn line_outcome(s: Seq<char>) -> LineOutcome {
    let e = body_end(s);
    if e >= s.len() {
        LineOutcome::Parsed(None)
    } else if s[e] == '<' {
        match gate_of_suffix(s.subrange(e, s.len() as int)) {
            Some(g) => LineOutcome::Parsed(Some(g)),
            None => LineOutcome::UnknownGate(s.subrange(e, s.len() as int)),
        }
    } else {
        LineOutcome::Illegal(s[e], e)
    }
}

/// The largest qubit among the operators, or 0 when there are none.
pub open spec fn max_qubit_of(ops: Seq<Operator>) -> u16
    decreases ops.len(),
{
    if ops.len() == 0 {
        0
    } else {
        let m = max_qubit_of(ops.drop_last());
        if ops.last().qubit > m { ops.last().qubit } else { m }
    }
}

/// Which gate type a product has after parsing `s`, starting from `old`.
pub open spec fn parsed_gate_type(s: Seq<char>, old: GateType) -> GateType {
    match line_outcome(s) {
        LineOutcome::Parsed(Some(g)) => g,
        _ => old,
    }
}

/// The line can be parsed without the arity check failing: a CX product ends
/// up with two operators, an S or SX product with one.
pub open spec fn arity_ok(s: Seq<char>, old_ops: Seq<Operator>, old_gate: GateType) -> bool {
    let ops = old_ops + body_operators(s, body_end(s));
    let g = parsed_gate_type(s, old_gate);
    line_outcome(s) is Parsed ==> {
        &&& g == GateType::CX ==> ops.len() == 2
        &&& (g == GateType::S || g == GateType::SX) ==> ops.len() == 1
    }
}

/// A quantum gate represented as a Pauli product with dependency tracking.
#[derive(Debug, Clone)]
pub struct PauliProduct {
    pub operators: Vec<Operator>,
    pub parents: Vec<i32>,
    pub children: Vec<i32>,
    pub max_qubit: u16,
    pub id: i32,
    pub gate_type: GateType,
}

/// Compares the characters from `start` on with a fixed sequence.
fn suffix_is(chars: &Vec<char>, start: usize, lit: &Vec<char>) -> (r: bool)
    requires
        start <= chars.len(),
    ensures
        r == (chars@.subrange(start as int, chars.len() as int) == lit@),
{
    if chars.len() - start != lit.len() {
        assert(chars@.subrange(start as int, chars.len() as int).len() != lit@.len());
        return false;
    }
    let mut k: usize = 0;
    while k < lit.len()
        invariant
            k <= lit.len(),
            chars.len() - start == lit.len(),
            start <= chars.len(),
            forall|j: int| 0 <= j < k ==> chars@[start + j] == lit@[j],
        decreases lit.len() - k,
    {
        if chars[start + k] != lit[k] {
            assert(chars@.subrange(start as int, chars.len() as int)[k as int] != lit@[k as int]);
            return false;
        }
        k += 1;
    }
    assert(chars@.subrange(start as int, chars.len() as int) =~= lit@);
    true
}

/// Which gate type the suffix starting at `start` names, if any.
fn lookup_gate(chars: &Vec<char>, start: usize) -> (r: Option<GateType>)
    requires
        start <= chars.len(),
    ensures
        r == gate_of_suffix(chars@.subrange(start as int, chars.len() as int)),
{
    let ghost t = chars@.subrange(start as int, chars.len() as int);
    let m = vec!['<', 'M', '>'];
    let tt = vec!['<', 'T', '>'];
    let cx = vec!['<', 'C', 'X', '>'];
    let s1 = vec!['<', 'S', '>'];
    let s2 = vec!['<', 'S', 'd', 'g', '>'];
    let sx1 = vec!['<', 'S', 'X', '>'];
    let sx2 = vec!['<', 'S', 'X', 'd', 'g', '>'];
    let z = vec!['<', 'Z', '>'];
    let x = vec!['<', 'X', '>'];
    assert(m@ =~= seq!['<', 'M', '>']);
    assert(tt@ =~= seq!['<', 'T', '>']);
    assert(cx@ =~= seq!['<', 'C', 'X', '>']);
    assert(s1@ =~= seq!['<', 'S', '>']);
    assert(s2@ =~= seq!['<', 'S', 'd', 'g', '>']);
    assert(sx1@ =~= seq!['<', 'S', 'X', '>']);
    assert(sx2@ =~= seq!['<', 'S', 'X', 'd', 'g', '>']);
    assert(z@ =~= seq!['<', 'Z', '>']);
    assert(x@ =~= seq!['<', 'X', '>']);
    if suffix_is(chars, start, &m) {
        Some(GateType::M)
    } else if suffix_is(chars, start, &tt) {
        Some(GateType::T)
    } else if suffix_is(chars, start, &cx) {
        Some(GateType::CX)
    } else if suffix_is(chars, start, &s1) || suffix_is(chars, start, &s2) {
        Some(GateType::S)
    } else if suffix_is(chars, start, &sx1) || suffix_is(chars, start, &sx2) {
        Some(GateType::SX)
    } else if suffix_is(chars, start, &z) {
        Some(GateType::Z)
    } else if suffix_is(chars, start, &x) {
        Some(GateType::X)
    } else {
        None
    }
}

/// A slice of a `Vec<char>` from `start` to its end, as a `String`.
fn tail_string(chars: &Vec<char>, start: usize) -> (s: String)
    requires
        start <= chars.len(),
    ensures
        s@ == chars@.subrange(start as int, chars.len() as int),
{
    let mut s = String::new();
    let mut i = start;
    while i < chars.len()
        invariant
            start <= i <= chars.len(),
            s@ == chars@.subrange(start as int, i as int),
        decreases chars.len() - i,
    {
        string_push(&mut s, chars[i]);
        assert(chars@.subrange(start as int, i as int).push(chars@[i as int]) =~= chars@.subrange(start as int, i + 1));
        i += 1;
    }
    s
}

pub proof fn lemma_body_end_bounds(s: Seq<char>, i: int)
    requires
        i >= 1,
    ensures
        i <= s.len() ==> i <= body_end_from(s, i) <= s.len(),
        body_end_from(s, i) >= s.len() || !is_body_char(s[body_end_from(s, i)]),
        forall|j: int| i <= j < body_end_from(s, i) && j < s.len() ==> is_body_char(s[j]),
    decreases s.len() - i,
{
    if i < s.len() && is_body_char(s[i]) {
        lemma_body_end_bounds(s, i + 1);
    }
}

proof fn lemma_max_qubit_push(ops: Seq<Operator>, op: Operator)
    ensures
        max_qubit_of(ops.push(op)) == (if op.qubit > max_qubit_of(ops) { op.qubit } else { max_qubit_of(ops) }),
{
    assert(ops.push(op).drop_last() =~= ops);
}

/// A product line that `set_from_str` can take on a fresh product: its sign
/// is ASCII, it names at most 65536 qubits, and a CX product has two
/// operators and an S or SX product one.
pub open spec fn line_ok(t: Seq<char>) -> bool {
    &&& t.len() == 0 || (t[0] as int) < 128
    &&& t.len() <= 65536
    &&& arity_ok(t, Seq::empty(), GateType::T)
}

/// Whether a product line can be handed to `set_from_str` on a fresh
/// product (see `line_ok`).
pub fn line_fits(t: &str) -> (b: bool)
    ensures
        b == line_ok(t@),
{
    let chars = str_chars(t);
    if chars.len() > 65536 {
        return false;
    }
    if chars.len() > 0 && chars[0] >= '\u{80}' {
        return false;
    }
    let mut i: usize = 1;
    let mut count: usize = 0;
    proof {
        lemma_body_end_bounds(t@, 1);
    }
    while i < chars.len() && (chars[i] == '_' || chars[i] == 'X' || chars[i] == 'Z' || chars[i] == 'Y')
        invariant
            1 <= i,
            chars@ == t@,
            chars.len() <= 65536,
            i <= body_end(t@) || chars.len() == 0,
            i <= chars.len() || i == 1,
            body_end(t@) <= chars.len() || chars.len() == 0,
            forall|j: int| 1 <= j < body_end(t@) && j < t@.len() ==> is_body_char(t@[j]),
            body_end(t@) >= t@.len() || !is_body_char(t@[body_end(t@)]),
            count == body_operators(t@, i as int).len(),
            count <= i,
        decreases chars.len() - i,
    {
        if chars[i] != '_' {
            count += 1;
        }
        i += 1;
    }
    assert(i as int == body_end(t@) || chars.len() == 0);
    if chars.len() == 0 {
        assert(body_end(t@) == 0);
        assert(body_operators(t@, i as int) =~= body_operators(t@, 0));
    }
    assert(Seq::<Operator>::empty() + body_operators(t@, body_end(t@)) =~= body_operators(t@, body_end(t@)));
    if i < chars.len() && chars[i] == '<' {
        let ghost e = body_end(t@);
        assert(e == i);
        match lookup_gate(&chars, i) {
            Some(g) => {
                assert(line_outcome(t@) == LineOutcome::Parsed(Some(g)));
                assert(parsed_gate_type(t@, GateType::T) == g);
                if g == GateType::CX {
                    count == 2
                } else if g == GateType::S || g == GateType::SX {
                    count == 1
                } else {
                    true
                }
            },
            None => {
                assert(line_outcome(t@) is UnknownGate);
                true
            },
        }
    } else {
        proof {
            if i < chars.len() {
                assert(line_outcome(t@) is Illegal);
            } else {
                assert(line_outcome(t@) == LineOutcome::Parsed(None));
                assert(parsed_gate_type(t@, GateType::T) == GateType::T);
            }
        }
        true
    }
}

/// Whether a product line parses: its body is followed by nothing or by a
/// known `<...>` gate suffix.
pub fn line_parses(t: &str) -> (b: bool)
    ensures
        b == (line_outcome(t@) is Parsed),
{
    let chars = str_chars(t);
    let mut i: usize = 1;
    proof {
        lemma_body_end_bounds(t@, 1);
    }
    while i < chars.len() && (chars[i] == '_' || chars[i] == 'X' || chars[i] == 'Z' || chars[i] == 'Y')
        invariant
            1 <= i,
            chars@ == t@,
            i <= body_end(t@) || chars.len() == 0,
            i <= chars.len() || i == 1,
            body_end(t@) <= chars.len() || chars.len() == 0,
            forall|j: int| 1 <= j < body_end(t@) && j < t@.len() ==> is_body_char(t@[j]),
            body_end(t@) >= t@.len() || !is_body_char(t@[body_end(t@)]),
        decreases chars.len() - i,
    {
        i += 1;
    }
    assert(i as int == body_end(t@) || chars.len() == 0);
    if chars.len() == 0 {
        assert(body_end(t@) == 0);
        return true;
    }
    if i >= chars.len() {
        return true;
    }
    if chars[i] != '<' {
        return false;
    }
    match lookup_gate(&chars, i) {
        Some(_) => true,
        None => false,
    }
}

impl PauliProduct {
    /// Creates a new empty Pauli product: no operators, no relatives, id -1, gate T.
    pub fn new() -> (pp: Self)
        ensures
            pp.operators@.len() == 0,
            pp.parents@.len() == 0,
            pp.children@.len() == 0,
            pp.max_qubit == 0,
            pp.id == -1,
            pp.gate_type == GateType::T,
    {
        PauliProduct {
            operators: Vec::new(),
            max_qubit: 0,
            parents: Vec::new(),
            children: Vec::new(),
            id: -1,
            gate_type: GateType::T,
        }
    }

    /// Parses a circuit format string into this Pauli product.
    /// Format: `[sign][X/Y/Z/_ per qubit][<gate_type>]` where `_` denotes identity on a qubit.
    /// The id is set first; operators are appended as they are read, so on an
    /// error the operators read before it stay.
    pub fn set_from_str(&mut self, product_id: i32, s: &str) -> (r: Result<(), ProductParseError>)
        requires
            s@.len() == 0 || (s@[0] as int) < 128,
            arity_ok(s@, old(self).operators@, old(self).gate_type),
        ensures
            final(self).id == product_id,
            final(self).parents == old(self).parents,
            final(self).children == old(self).children,
            final(self).operators@ == old(self).operators@ + body_operators(s@, body_end(s@)),
            final(self).gate_type == parsed_gate_type(s@, old(self).gate_type),
            match line_outcome(s@) {
                LineOutcome::Parsed(_) => r is Ok && final(self).max_qubit == max_qubit_of(final(self).operators@),
                LineOutcome::UnknownGate(t) => r matches Err(ProductParseError::UnknownGate(g)) && g@ == t
                    && final(self).max_qubit == old(self).max_qubit,
                LineOutcome::Illegal(c, i) => r == Err::<(), ProductParseError>(ProductParseError::IllegalCharacter(c, i as usize))
                    && final(self).max_qubit == old(self).max_qubit,
            },
    {
        self.id = product_id;
        let chars = str_chars(s);
        let ghost old_ops = self.operators@;
        let mut i: usize = 1;
        proof {
            lemma_body_end_bounds(s@, 1);
        }
        while i < chars.len() && (chars[i] == '_' || chars[i] == 'X' || chars[i] == 'Z' || chars[i] == 'Y')
            invariant
                1 <= i,
                chars@ == s@,
                i <= body_end(s@) || chars.len() == 0,
                i <= chars.len() || i == 1,
                body_end(s@) <= chars.len() || chars.len() == 0,
                forall|j: int| 1 <= j < body_end(s@) && j < s@.len() ==> is_body_char(s@[j]),
                body_end(s@) >= s@.len() || !is_body_char(s@[body_end(s@)]),
                self.operators@ == old_ops + body_operators(s@, i as int),
                self.id == product_id,
                self.parents == old(self).parents,
                self.children == old(self).children,
                self.gate_type == old(self).gate_type,
                self.max_qubit == old(self).max_qubit,
            decreases chars.len() - i,
        {
            let c = chars[i];
            if c != '_' {
                self.operators.push(Operator { qubit: #[verifier::truncate] ((i - 1) as u16), basis: c });
            }
            assert(self.operators@ =~= old_ops + body_operators(s@, (i + 1) as int));
            i += 1;
        }
        assert(i as int == body_end(s@) || chars.len() == 0);
        if chars.len() == 0 {
            assert(body_end(s@) == 0);
            assert(body_operators(s@, i as int) =~= body_operators(s@, 0));
        }
        assert(self.operators@ == old_ops + body_operators(s@, body_end(s@)));
        if i < chars.len() {
            let c = chars[i];
            if c == '<' {
                match lookup_gate(&chars, i) {
                    Some(g) => {
                        self.gate_type = g;
                    },
                    None => {
                        return Err(ProductParseError::UnknownGate(tail_string(&chars, i)));
                    },
                }
            } else {
                return Err(ProductParseError::IllegalCharacter(c, i));
            }
        }
        assert(line_outcome(s@) is Parsed);
        assert(self.gate_type == parsed_gate_type(s@, old(self).gate_type));
        if self.gate_type.is_cx() {
            assert(self.operators.len() == 2);
        } else if self.gate_type.is_s() || self.gate_type.is_sx() {
            assert(self.operators.len() == 1);
        }
        let mut m: u16 = 0;
        let mut k: usize = 0;
        while k < self.operators.len()
            invariant
                k <= self.operators.len(),
                m == max_qubit_of(self.operators@.subrange(0, k as int)),
            decreases self.operators.len() - k,
        {
            proof {
                lemma_max_qubit_push(self.operators@.subrange(0, k as int), self.operators@[k as int]);
                assert(self.operators@.subrange(0, k as int).push(self.operators@[k as int]) =~= self.operators@.subrange(0, k + 1));
            }
            if self.operators[k].qubit > m {
                m = self.operators[k].qubit;
            }
            k += 1;
        }
        assert(self.operators@.subrange(0, self.operators.len() as int) =~= self.operators@);
        self.max_qubit = m;
        Ok(())
    }

    /// The operators followed by its gate type in angle brackets, e.g. `0X1Z<T>`.
    pub fn to_operator_str(&self) -> (s: String)
        ensures
            s@ == operators_text(self.operators@) + seq!['<'] + gate_name(self.gate_type) + seq!['>'],
    {
        let mut s = String::new();
        push_operators_text(&mut s, &self.operators);
        string_push(&mut s, '<');
        let g = self.gate_type.to_display_string();
        push_str(&mut s, g.as_str());
        string_push(&mut s, '>');
        s
    }

    /// The product as its `Display` form writes it: id, operators, gate type in
    /// angle brackets, then the children and parents lists, e.g.
    /// `3 0X1Z <T> children [5] parents []`.
    pub fn to_display_string(&self) -> (s: String)
        ensures
            s@ == product_text(*self),
    {
        let mut s = i64_to_string(self.id as i64);
        string_push(&mut s, ' ');
        push_operators_text(&mut s, &self.operators);
        string_push(&mut s, ' ');
        string_push(&mut s, '<');
        let g = self.gate_type.to_display_string();
        push_str(&mut s, g.as_str());
        string_push(&mut s, '>');
        push_str(&mut s, " children ");
        push_id_list(&mut s, &self.children);
        push_str(&mut s, " parents ");
        push_id_list(&mut s, &self.parents);
        proof {
            reveal_strlit(" children ");
            reveal_strlit(" parents ");
        }
        s
    }

    /// Returns the list of qubits on which this product operates, in operator order.
    pub fn get_qubits(&self) -> (q: Vec<u16>)
        ensures
            q@.len() == self.operators@.len(),
            forall|i: int| 0 <= i < q@.len() ==> q@[i] == self.operators@[i].qubit,
    {
        let mut q: Vec<u16> = Vec::new();
        let mut i: usize = 0;
        while i < self.operators.len()
            invariant
                i <= self.operators.len(),
                q@.len() == i,
                forall|j: int| 0 <= j < i ==> q@[j] == self.operators@[j].qubit,
            decreases self.operators.len() - i,
        {
            q.push(self.operators[i].qubit);
            i += 1;
        }
        q
    }
}

} // verus!
