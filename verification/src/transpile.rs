//! Pauli algebra of the transpiler: single-qubit Pauli terms with a phase
//! `i^phase`, rotation angles as reduced fractions of pi, and products of
//! terms that are commuted past each other.
use vstd::prelude::*;

verus! {

/// `a % 4` as Rust computes it on integers: the remainder keeps the sign of `a`.
pub open spec fn rem4(a: int) -> int {
    if a >= 0 { a % 4 } else { -((-a) % 4) }
}

/// Adds two phases (powers of `i`) modulo 4.
pub fn add_phase(phase1: i32, phase2: i32) -> (r: i32)
    requires
        i32::MIN <= phase1 + phase2 <= i32::MAX,
    ensures
        r == rem4(phase1 + phase2),
{
    let s: i64 = phase1 as i64 + phase2 as i64;
    if s >= 0 {
        (s % 4) as i32
    } else {
        (-((-s) % 4)) as i32
    }
}

/// A single-qubit Pauli basis: I, X, Y or Z.
pub open spec fn is_pauli(c: char) -> bool {
    c == 'I' || c == 'X' || c == 'Y' || c == 'Z'
}

/// Two bases commute when either is the identity or they are equal.
pub open spec fn bases_commute(b1: char, b2: char) -> bool {
    b1 == 'I' || b2 == 'I' || b1 == b2
}

/// Whether two single-qubit bases commute.
pub fn basis_commutes_with(b1: char, b2: char) -> (r: bool)
    ensures
        r == bases_commute(b1, b2),
{
    b1 == 'I' || b2 == 'I' || b1 == b2
}

/// The product `left * right` of two Pauli bases as a basis and a phase
/// `i^phase`: XY = iZ, YZ = iX, ZX = iY, and the reverse orders give `-i`.
pub open spec fn pauli_mul(left: char, right: char) -> (char, int) {
    if left == 'I' { (right, 0) }
    else if right == 'I' { (left, 0) }
    else if left == right { ('I', 0) }
    else if left == 'X' && right == 'Y' { ('Z', 1) }
    else if left == 'X' && right == 'Z' { ('Y', 3) }
    else if left == 'Y' && right == 'X' { ('Z', 3) }
    else if left == 'Y' && right == 'Z' { ('X', 1) }
    else if left == 'Z' && right == 'X' { ('Y', 1) }
    else { ('X', 3) }
}

/// Multiplies two Pauli bases, giving the resulting basis and phase.
pub fn multiply_pauli_ops(left: char, right: char) -> (r: (char, i32))
    requires
        is_pauli(left),
        is_pauli(right),
    ensures
        r.0 == pauli_mul(left, right).0,
        r.1 == pauli_mul(left, right).1,
{
    if left == 'I' {
        (right, 0)
    } else if right == 'I' {
        (left, 0)
    } else if left == 'X' && right == 'X' {
        ('I', 0)
    } else if left == 'X' && right == 'Y' {
        ('Z', 1)
    } else if left == 'X' && right == 'Z' {
        ('Y', 3)
    } else if left == 'Y' && right == 'Y' {
        ('I', 0)
    } else if left == 'Y' && right == 'X' {
        ('Z', 3)
    } else if left == 'Y' && right == 'Z' {
        ('X', 1)
    } else if left == 'Z' && right == 'Z' {
        ('I', 0)
    } else if left == 'Z' && right == 'X' {
        ('Y', 1)
    } else {
        ('X', 3)
    }
}

/// Swapping the factors keeps the basis of a product of Paulis; the phases
/// agree when the bases commute and differ by a sign (`i^2`) when they do not.
pub proof fn lemma_pauli_mul_swap(a: char, b: char)
    requires
        is_pauli(a),
        is_pauli(b),
    ensures
        pauli_mul(a, b).0 == pauli_mul(b, a).0,
        bases_commute(a, b) ==> pauli_mul(a, b).1 == pauli_mul(b, a).1,
        !bases_commute(a, b) ==> (pauli_mul(a, b).1 + 2) % 4 == pauli_mul(b, a).1,
{
}

/// A Pauli operator `i^phase * basis` on one qubit.
#[derive(Debug, Clone, Copy, PartialEq, Eq, Structural)]
pub struct PauliTerm {
    pub basis: char,
    pub phase: i32,
    pub qubit: i32,
}

/// A rotation angle `numerator/denominator * pi` in lowest terms.
#[derive(Debug, Clone, Copy, PartialEq, Eq, Structural)]
pub struct Angle {
    pub numerator: i32,
    pub denominator: i32,
    pub is_clifford: bool,
}

/// The greatest common divisor by Euclid's algorithm (0 for `gcd(0, 0)`).
pub open spec fn gcd_of(a: nat, b: nat) -> nat
    decreases b,
{
    if b == 0 { a } else { gcd_of(b, a % b) }
}

/// `|x|`.
pub open spec fn abs_of(x: int) -> nat {
    if x < 0 { (-x) as nat } else { x as nat }
}

proof fn lemma_gcd_divides(a: nat, b: nat)
    ensures
        gcd_of(a, b) > 0 ==> a % gcd_of(a, b) == 0 && b % gcd_of(a, b) == 0,
        gcd_of(a, b) == 0 <==> (a == 0 && b == 0),
        a > 0 ==> gcd_of(a, b) <= a,
        b > 0 ==> gcd_of(a, b) <= b,
    decreases b,
{
    if b > 0 {
        let r = a % b;
        lemma_gcd_divides(b, r);
        let g = gcd_of(b, r);
        vstd::arithmetic::div_mod::lemma_fundamental_div_mod(a as int, b as int);
        if g > 0 {
            vstd::arithmetic::div_mod::lemma_fundamental_div_mod(b as int, g as int);
            vstd::arithmetic::div_mod::lemma_fundamental_div_mod(r as int, g as int);
            let k = (a / b) * (b / g) + r / g;
            assert(a == k * g) by (nonlinear_arith)
                requires a == b * (a / b) + r, b == g * (b / g), r == g * (r / g), k == (a / b) * (b / g) + r / g;
            vstd::arithmetic::div_mod::lemma_mod_multiples_basic(k as int, g as int);
        }
        if a > 0 && r == 0 {
            assert(a / b >= 1) by (nonlinear_arith)
                requires a == b * (a / b) + r, r == 0, a > 0, b > 0;
            assert(b <= a) by (nonlinear_arith)
                requires a == b * (a / b), a / b >= 1, b > 0;
        }
    }
}

/// The greatest common divisor of two integers, never negative; `gcd(0, 0) == 0`.
pub fn gcd(a: i32, b: i32) -> (g: i32)
    requires
        a != i32::MIN,
        b != i32::MIN,
    ensures
        g == gcd_of(abs_of(a as int), abs_of(b as int)),
{
    let mut x: i32 = if a < 0 { -a } else { a };
    let mut y: i32 = if b < 0 { -b } else { b };
    while y != 0
        invariant
            x >= 0,
            y >= 0,
            gcd_of(x as nat, y as nat) == gcd_of(abs_of(a as int), abs_of(b as int)),
        decreases y,
    {
        let r = x % y;
        x = y;
        y = r;
    }
    x
}

/// A rotation by a Clifford angle: a multiple of pi/4.
pub open spec fn clifford_denominator(d: int) -> bool {
    d == 1 || d == 2 || d == 4 || d == -1 || d == -2 || d == -4
}

impl Angle {
    /// The angle `numerator/denominator * pi` reduced to lowest terms (both
    /// divided by their greatest common divisor; `0/0` stays `0/0`). It is a
    /// Clifford angle when the reduced denominator is 1, 2 or 4 (either sign).
    pub fn new(numerator: i32, denominator: i32) -> (a: Self)
        requires
            numerator != i32::MIN,
            denominator != i32::MIN,
        ensures
            ({
                let g = gcd_of(abs_of(numerator as int), abs_of(denominator as int));
                &&& g == 0 ==> a.numerator == 0 && a.denominator == 0
                &&& g > 0 ==> a.numerator * g == numerator && a.denominator * g == denominator
            }),
            a.is_clifford == clifford_denominator(a.denominator as int),
    {
        let g = gcd(numerator, denominator);
        proof {
            lemma_gcd_divides(abs_of(numerator as int), abs_of(denominator as int));
        }
        let (n, d) = if g == 0 {
            (0i32, 0i32)
        } else {
            proof {
                let gg = g as int;
                lemma_signed_divisible(numerator as int, gg);
                lemma_signed_divisible(denominator as int, gg);
            }
            (exact_div(numerator, g), exact_div(denominator, g))
        };
        let is_clifford = d == 1 || d == 2 || d == 4 || d == -1 || d == -2 || d == -4;
        Angle { numerator: n, denominator: d, is_clifford }
    }
}

/// A divisor of `|x|` divides `x`.
proof fn lemma_signed_divisible(x: int, g: int)
    requires
        g > 0,
        (abs_of(x) as int) % g == 0,
    ensures
        x % g == 0,
{
    let ax = abs_of(x) as int;
    assert(ax == (ax / g) * g) by (nonlinear_arith)
        requires g > 0, ax % g == 0;
    if x < 0 {
        assert(x == (-(ax / g)) * g) by (nonlinear_arith)
            requires x == -ax, ax == (ax / g) * g;
        vstd::arithmetic::div_mod::lemma_mod_multiples_basic(-(ax / g), g);
    }
}

/// `a / b` for a `b > 0` that divides `a` exactly.
fn exact_div(a: i32, b: i32) -> (q: i32)
    requires
        b > 0,
        a != i32::MIN,
        (a as int) % (b as int) == 0,
    ensures
        q * b == a,
{
    proof {
        vstd::arithmetic::div_mod::lemma_fundamental_div_mod(a as int, b as int);
    }
    if a >= 0 {
        let q = a / b;
        assert(q * b == a) by (nonlinear_arith)
            requires a == b * (a / b) + a % b, a % b == 0, q == a / b;
        q
    } else {
        let na: i32 = -a;
        proof {
            let ai = a as int;
            let bi = b as int;
            assert(-ai == (-(ai / bi)) * bi) by (nonlinear_arith)
                requires ai == bi * (ai / bi) + ai % bi, ai % bi == 0;
            vstd::arithmetic::div_mod::lemma_mod_multiples_basic(-(ai / bi), bi);
            vstd::arithmetic::div_mod::lemma_fundamental_div_mod(na as int, b as int);
        }
        let q0 = na / b;
        assert(q0 * b == na) by (nonlinear_arith)
            requires na == b * (na / b) + na % b, na % b == 0, q0 == na / b;
        assert((-q0) * b == a) by (nonlinear_arith)
            requires q0 * b == na, na == -a;
        -q0
    }
}

impl PauliTerm {
    /// The term `i^phase * basis` on `qubit`.
    pub fn new(basis: char, phase: i32, qubit: i32) -> (t: Self)
        ensures
            t == (PauliTerm { basis, phase, qubit }),
    {
        PauliTerm { basis, phase, qubit }
    }

    /// Conjugating `rhs` by the Clifford rotation of `self` on the same
    /// qubit: a commuting `rhs` is returned as it is; otherwise the bases
    /// multiply and the phase gains the product's phase plus `i`, plus `-1`
    /// more when the angle exceeds pi.
    pub fn commute_right(&self, rhs: &PauliTerm, angle: &Angle) -> (t: PauliTerm)
        requires
            self.qubit == rhs.qubit,
            is_pauli(self.basis),
            is_pauli(rhs.basis),
            -4 < self.phase < 4,
            -4 < rhs.phase < 4,
        ensures
            t == commuted_term(*self, *rhs, *angle),
    {
        if basis_commutes_with(self.basis, rhs.basis) {
            return *rhs;
        }
        let mut new_term = PauliTerm { basis: 'I', phase: add_phase(self.phase, rhs.phase), qubit: self.qubit };
        let (new_basis, phase_shift) = multiply_pauli_ops(self.basis, rhs.basis);
        new_term.basis = new_basis;
        new_term.phase = add_phase(new_term.phase, phase_shift);
        new_term.phase = add_phase(new_term.phase, 1);
        if angle.numerator > angle.denominator {
            new_term.phase = add_phase(new_term.phase, 2);
        }
        new_term
    }
}

/// What `commute_right` gives for `left` and `right` on one qubit.
pub open spec fn commuted_term(left: PauliTerm, right: PauliTerm, angle: Angle) -> PauliTerm {
    if bases_commute(left.basis, right.basis) {
        right
    } else {
        let m = pauli_mul(left.basis, right.basis);
        let p = rem4(rem4(rem4(left.phase + right.phase) + m.1) + 1);
        let p2 = if angle.numerator > angle.denominator { rem4(p + 2) } else { p };
        PauliTerm { basis: m.0, phase: p2 as i32, qubit: left.qubit }
    }
}

/// The last of the terms on qubit `q`, if any.
pub open spec fn last_term(ts: Seq<PauliTerm>, q: i32) -> Option<PauliTerm>
    decreases ts.len(),
{
    if ts.len() == 0 {
        None
    } else if ts.last().qubit == q {
        Some(ts.last())
    } else {
        last_term(ts.drop_last(), q)
    }
}

/// A term whose basis is a Pauli basis and whose phase is small.
pub open spec fn term_ok(t: PauliTerm) -> bool {
    is_pauli(t.basis) && -4 < t.phase < 4
}

/// How many terms of `other` sit on a qubit where `terms` (its last term
/// there) has a different basis, neither being the identity.
pub open spec fn anticommuting(terms: Seq<PauliTerm>, other: Seq<PauliTerm>) -> nat
    decreases other.len(),
{
    if other.len() == 0 {
        0
    } else {
        let t = other.last();
        let hit = match last_term(terms, t.qubit) {
            Some(s) => s.basis != t.basis && s.basis != 'I' && t.basis != 'I',
            None => false,
        };
        anticommuting(terms, other.drop_last()) + (if hit { 1nat } else { 0nat })
    }
}

/// The term that commuting `rhs` past `left` leaves on qubit `q`: the lone
/// term when only one product has one there, else the conjugated pair.
pub open spec fn merged_term(l: Seq<PauliTerm>, r: Seq<PauliTerm>, q: i32, angle: Angle) -> PauliTerm {
    match (last_term(l, q), last_term(r, q)) {
        (Some(a), Some(b)) => commuted_term(a, b, angle),
        (Some(a), None) => a,
        (None, Some(b)) => b,
        (None, None) => PauliTerm { basis: 'I', phase: 0, qubit: q },
    }
}

/// Some term is on qubit `q`.
pub open spec fn on_qubit(ts: Seq<PauliTerm>, q: i32) -> bool {
    exists|i: int| 0 <= i < ts.len() && (#[trigger] ts[i]).qubit == q
}

pub(crate) proof fn lemma_last_term(ts: Seq<PauliTerm>, q: i32)
    ensures
        last_term(ts, q) is Some <==> on_qubit(ts, q),
        last_term(ts, q) matches Some(t) ==> t.qubit == q && exists|i: int| 0 <= i < ts.len() && ts[i] == t,
    decreases ts.len(),
{
    if ts.len() > 0 {
        lemma_last_term(ts.drop_last(), q);
        if on_qubit(ts, q) && ts.last().qubit != q {
            let i = choose|i: int| 0 <= i < ts.len() && (#[trigger] ts[i]).qubit == q;
            assert(ts.drop_last()[i].qubit == q);
        }
        if on_qubit(ts.drop_last(), q) {
            let i = choose|i: int| 0 <= i < ts.drop_last().len() && (#[trigger] ts.drop_last()[i]).qubit == q;
            assert(ts[i].qubit == q);
        }
        if ts.last().qubit == q {
            assert(ts[ts.len() - 1].qubit == q);
        }
        if let Some(t) = last_term(ts.drop_last(), q) {
            if ts.last().qubit != q {
                let i = choose|i: int| 0 <= i < ts.drop_last().len() && ts.drop_last()[i] == t;
                assert(ts[i] == t);
            }
        }
    }
}

/// A product of Pauli terms with a rotation angle.
#[derive(Debug, Clone)]
pub struct PauliProduct {
    pub terms: Vec<PauliTerm>,
    pub angle: Angle,
    pub layer: u32,
}

/// The last term of `ts` on qubit `q`.
fn find_last(ts: &Vec<PauliTerm>, q: i32) -> (r: Option<PauliTerm>)
    ensures
        r == last_term(ts@, q),
{
    let mut i = ts.len();
    assert(ts@.take(i as int) =~= ts@);
    while i > 0
        invariant
            i <= ts@.len(),
            last_term(ts@.take(i as int), q) == last_term(ts@, q),
        decreases i,
    {
        proof {
            assert(ts@.take(i as int).drop_last() =~= ts@.take(i - 1));
            assert(ts@.take(i as int).last() == ts@[i - 1]);
        }
        if ts[i - 1].qubit == q {
            return Some(ts[i - 1]);
        }
        i -= 1;
    }
    proof {
        assert(ts@.take(0) =~= Seq::<PauliTerm>::empty());
    }
    None
}

impl PauliProduct {
    /// The product of `terms` rotated by `angle`, in layer 0.
    pub fn new(terms: Vec<PauliTerm>, angle: Angle) -> (p: Self)
        ensures
            p.terms@ == terms@,
            p.angle == angle,
            p.layer == 0,
    {
        PauliProduct { terms, angle, layer: 0 }
    }

    /// A Clifford product: its angle is a multiple of pi/4.
    pub fn is_clifford(&self) -> (r: bool)
        ensures
            r == self.angle.is_clifford,
    {
        self.angle.is_clifford
    }

    /// Two products commute when an even number of qubits carry different,
    /// non-identity bases in the two (for `self`, its last term on a qubit counts).
    pub fn commutes_with(&self, other: &PauliProduct) -> (r: bool)
        ensures
            r == (anticommuting(self.terms@, other.terms@) % 2 == 0),
    {
        let mut count: usize = 0;
        let mut j: usize = 0;
        while j < other.terms.len()
            invariant
                j <= other.terms@.len(),
                count == anticommuting(self.terms@, other.terms@.take(j as int)),
                count <= j,
            decreases other.terms@.len() - j,
        {
            proof {
                assert(other.terms@.take(j + 1).drop_last() =~= other.terms@.take(j as int));
                assert(other.terms@.take(j + 1).last() == other.terms@[j as int]);
            }
            let t = other.terms[j];
            match find_last(&self.terms, t.qubit) {
                Some(s) => {
                    if s.basis != t.basis && s.basis != 'I' && t.basis != 'I' {
                        count += 1;
                    }
                },
                None => {},
            }
            j += 1;
        }
        proof {
            assert(other.terms@.take(j as int) =~= other.terms@);
        }
        count % 2 == 0
    }

    /// `rhs` moved to the left of this Clifford rotation: unchanged when the
    /// two commute; otherwise one term per qubit of either product, in
    /// increasing qubit order, each the merged term for its qubit, with the
    /// angle of `rhs`.
    pub fn commute_right(&self, rhs: &PauliProduct) -> (p: PauliProduct)
        requires
            anticommuting(self.terms@, rhs.terms@) % 2 != 0 ==> self.angle.is_clifford,
            forall|i: int| 0 <= i < self.terms@.len() ==> term_ok(#[trigger] self.terms@[i]),
            forall|i: int| 0 <= i < rhs.terms@.len() ==> term_ok(#[trigger] rhs.terms@[i]),
        ensures
            anticommuting(self.terms@, rhs.terms@) % 2 == 0 ==> p.terms@ == rhs.terms@ && p.angle == rhs.angle && p.layer == rhs.layer,
            anticommuting(self.terms@, rhs.terms@) % 2 != 0 ==> {
                &&& p.angle == rhs.angle
                &&& p.layer == 0
                &&& forall|a: int, b: int| 0 <= a < b < p.terms@.len() ==> p.terms@[a].qubit < p.terms@[b].qubit
                &&& forall|q: i32| (exists|k: int| 0 <= k < p.terms@.len() && #[trigger] p.terms@[k].qubit == q)
                    <==> (on_qubit(self.terms@, q) || on_qubit(rhs.terms@, q))
                &&& forall|k: int| 0 <= k < p.terms@.len() ==> #[trigger] p.terms@[k]
                    == merged_term(self.terms@, rhs.terms@, p.terms@[k].qubit, self.angle)
            },
    {
        if self.commutes_with(rhs) {
            return PauliProduct { terms: rhs.terms.clone(), angle: rhs.angle, layer: rhs.layer };
        }
        let mut new_terms: Vec<PauliTerm> = Vec::new();
        let mut last: Option<i32> = None;
        loop
            invariant
                forall|i: int| 0 <= i < self.terms@.len() ==> term_ok(#[trigger] self.terms@[i]),
                forall|i: int| 0 <= i < rhs.terms@.len() ==> term_ok(#[trigger] rhs.terms@[i]),
                forall|a: int, b: int| 0 <= a < b < new_terms@.len() ==> new_terms@[a].qubit < new_terms@[b].qubit,
                last is None <==> new_terms@.len() == 0,
                last matches Some(m) ==> new_terms@.len() > 0 && new_terms@.last().qubit == m,
                forall|q: i32| (exists|k: int| 0 <= k < new_terms@.len() && #[trigger] new_terms@[k].qubit == q)
                    <==> ((on_qubit(self.terms@, q) || on_qubit(rhs.terms@, q)) && (last matches Some(m) && q <= m)),
                forall|k: int| 0 <= k < new_terms@.len() ==> #[trigger] new_terms@[k]
                    == merged_term(self.terms@, rhs.terms@, new_terms@[k].qubit, self.angle),
            ensures
                forall|x: i32| (on_qubit(self.terms@, x) || on_qubit(rhs.terms@, x)) ==> !above(x, last),
                forall|a: int, b: int| 0 <= a < b < new_terms@.len() ==> new_terms@[a].qubit < new_terms@[b].qubit,
                forall|q: i32| (exists|k: int| 0 <= k < new_terms@.len() && #[trigger] new_terms@[k].qubit == q)
                    <==> ((on_qubit(self.terms@, q) || on_qubit(rhs.terms@, q)) && (last matches Some(m) && q <= m)),
                forall|k: int| 0 <= k < new_terms@.len() ==> #[trigger] new_terms@[k]
                    == merged_term(self.terms@, rhs.terms@, new_terms@[k].qubit, self.angle),
            decreases above_count(self.terms@, last) + above_count(rhs.terms@, last),
        {
            let next = next_qubit(&self.terms, &rhs.terms, last);
            match next {
                None => {
                    break;
                },
                Some(q) => {
                    let lt = find_last(&self.terms, q);
                    let rt = find_last(&rhs.terms, q);
                    proof {
                        lemma_last_term(self.terms@, q);
                        lemma_last_term(rhs.terms@, q);
                    }
                    let term = match (lt, rt) {
                        (Some(a), Some(b)) => a.commute_right(&b, &self.angle),
                        (Some(a), None) => a,
                        (None, Some(b)) => b,
                        (None, None) => PauliTerm { basis: 'I', phase: 0, qubit: q },
                    };
                    let ghost before = new_terms@;
                    let ghost old_last = last;
                    new_terms.push(term);
                    last = Some(q);
                    proof {
                        lemma_above_count_step(self.terms@, old_last, q);
                        lemma_above_count_step(rhs.terms@, old_last, q);
                        assert(term.qubit == q);
                        assert forall|qq: i32| (exists|k: int| 0 <= k < new_terms@.len() && #[trigger] new_terms@[k].qubit == qq)
                            <==> ((on_qubit(self.terms@, qq) || on_qubit(rhs.terms@, qq)) && qq <= q) by {
                            if exists|k: int| 0 <= k < new_terms@.len() && #[trigger] new_terms@[k].qubit == qq {
                                let k = choose|k: int| 0 <= k < new_terms@.len() && #[trigger] new_terms@[k].qubit == qq;
                                if k < before.len() {
                                    assert(before[k].qubit == qq);
                                }
                            }
                            if (on_qubit(self.terms@, qq) || on_qubit(rhs.terms@, qq)) && qq <= q {
                                if qq == q {
                                    assert(new_terms@[before.len() as int].qubit == qq);
                                } else {
                                    if above(qq, old_last) {
                                        assert(q <= qq);
                                    }
                                    assert(!above(qq, old_last));
                                    assert(old_last matches Some(m) && qq <= m);
                                    let k = choose|k: int| 0 <= k < before.len() && #[trigger] before[k].qubit == qq;
                                    assert(new_terms@[k].qubit == qq);
                                }
                            }
                        }
                    }
                },
            }
        }
        proof {
            assert forall|q: i32| (exists|k: int| 0 <= k < new_terms@.len() && #[trigger] new_terms@[k].qubit == q)
                <==> (on_qubit(self.terms@, q) || on_qubit(rhs.terms@, q)) by {
                if on_qubit(self.terms@, q) || on_qubit(rhs.terms@, q) {
                    lemma_no_qubit_above(self.terms@, rhs.terms@, last, q);
                }
            }
        }
        PauliProduct::new(new_terms, rhs.angle)
    }
}

/// Number of terms above the bound `last` (all terms when there is none).
pub open spec fn above_count(ts: Seq<PauliTerm>, last: Option<i32>) -> nat
    decreases ts.len(),
{
    if ts.len() == 0 {
        0
    } else {
        above_count(ts.drop_last(), last) + (if (last matches Some(m) ==> ts.last().qubit > m) { 1nat } else { 0nat })
    }
}

proof fn lemma_above_count_step(ts: Seq<PauliTerm>, last: Option<i32>, q: i32)
    requires
        last matches Some(m) ==> q > m,
    ensures
        above_count(ts, Some(q)) <= above_count(ts, last),
        on_qubit(ts, q) ==> above_count(ts, Some(q)) < above_count(ts, last),
    decreases ts.len(),
{
    if ts.len() > 0 {
        lemma_above_count_step(ts.drop_last(), last, q);
        if on_qubit(ts, q) && ts.last().qubit != q {
            let i = choose|i: int| 0 <= i < ts.len() && (#[trigger] ts[i]).qubit == q;
            assert(ts.drop_last()[i].qubit == q);
        }
    }
}

/// `x` lies above the bound `last` (any `x` does when there is none).
pub open spec fn above(x: i32, last: Option<i32>) -> bool {
    match last {
        Some(m) => x > m,
        None => true,
    }
}

/// `best` holds a qubit no larger than `x`.
pub open spec fn at_most(best: Option<i32>, x: i32) -> bool {
    match best {
        Some(q) => q <= x,
        None => false,
    }
}

/// The smallest qubit of either list above `last` (any qubit when there is
/// no bound), if one exists.
fn next_qubit(l: &Vec<PauliTerm>, r: &Vec<PauliTerm>, last: Option<i32>) -> (n: Option<i32>)
    ensures
        n matches Some(q) ==> (on_qubit(l@, q) || on_qubit(r@, q)) && above(q, last)
            && forall|x: i32| (on_qubit(l@, x) || on_qubit(r@, x)) && above(x, last) ==> q <= x,
        n is None ==> forall|x: i32| (on_qubit(l@, x) || on_qubit(r@, x)) ==> !above(x, last),
{
    let mut best: Option<i32> = None;
    let mut i: usize = 0;
    while i < l.len()
        invariant
            i <= l@.len(),
            best matches Some(q) ==> on_qubit(l@, q) && above(q, last),
            forall|k: int| 0 <= k < i && above(#[trigger] l@[k].qubit, last) ==> at_most(best, l@[k].qubit),
        decreases l@.len() - i,
    {
        let x = l[i].qubit;
        let ab = match last {
            Some(m) => x > m,
            None => true,
        };
        if ab {
            let better = match best {
                Some(b) => x < b,
                None => true,
            };
            if better {
                best = Some(x);
                proof {
                    assert(l@[i as int].qubit == x);
                }
            }
        }
        i += 1;
    }
    let mut j: usize = 0;
    while j < r.len()
        invariant
            j <= r@.len(),
            best matches Some(q) ==> (on_qubit(l@, q) || on_qubit(r@, q)) && above(q, last),
            forall|k: int| 0 <= k < l@.len() && above(#[trigger] l@[k].qubit, last) ==> at_most(best, l@[k].qubit),
            forall|k: int| 0 <= k < j && above(#[trigger] r@[k].qubit, last) ==> at_most(best, r@[k].qubit),
        decreases r@.len() - j,
    {
        let x = r[j].qubit;
        let ab = match last {
            Some(m) => x > m,
            None => true,
        };
        if ab {
            let better = match best {
                Some(b) => x < b,
                None => true,
            };
            if better {
                best = Some(x);
                proof {
                    assert(r@[j as int].qubit == x);
                }
            }
        }
        j += 1;
    }
    proof {
        assert forall|x: i32| (on_qubit(l@, x) || on_qubit(r@, x)) && above(x, last) implies at_most(best, x) by {
            if on_qubit(l@, x) {
                let k = choose|k: int| 0 <= k < l@.len() && (#[trigger] l@[k]).qubit == x;
                assert(above(l@[k].qubit, last));
            } else {
                let k = choose|k: int| 0 <= k < r@.len() && (#[trigger] r@[k]).qubit == x;
                assert(above(r@[k].qubit, last));
            }
        }
    }
    best
}

proof fn lemma_no_qubit_above(l: Seq<PauliTerm>, r: Seq<PauliTerm>, last: Option<i32>, q: i32)
    requires
        forall|x: i32| (on_qubit(l, x) || on_qubit(r, x)) ==> !above(x, last),
        on_qubit(l, q) || on_qubit(r, q),
    ensures
        last matches Some(m) && q <= m,
{
}

/// Two terms on one qubit that anticommute: different bases, neither the identity.
pub open spec fn clash(s: PauliTerm, t: PauliTerm) -> bool {
    s.qubit == t.qubit && s.basis != t.basis && s.basis != 'I' && t.basis != 'I'
}

/// How many terms of `a` clash with `t`.
pub open spec fn clashes(a: Seq<PauliTerm>, t: PauliTerm) -> nat
    decreases a.len(),
{
    if a.len() == 0 { 0 } else { clashes(a.drop_last(), t) + (if clash(a.last(), t) { 1nat } else { 0nat }) }
}

/// How many pairs of a term of `a` and a term of `b` clash.
pub open spec fn clash_pairs(a: Seq<PauliTerm>, b: Seq<PauliTerm>) -> nat
    decreases b.len(),
{
    if b.len() == 0 { 0 } else { clash_pairs(a, b.drop_last()) + clashes(a, b.last()) }
}

/// No qubit carries two terms.
pub open spec fn distinct_qubits(a: Seq<PauliTerm>) -> bool {
    forall|i: int, j: int| 0 <= i < j < a.len() ==> a[i].qubit != a[j].qubit
}

proof fn lemma_clashes_none(a: Seq<PauliTerm>, t: PauliTerm)
    requires
        !on_qubit(a, t.qubit),
    ensures
        clashes(a, t) == 0,
    decreases a.len(),
{
    if a.len() > 0 {
        if on_qubit(a.drop_last(), t.qubit) {
            let i = choose|i: int| 0 <= i < a.drop_last().len() && (#[trigger] a.drop_last()[i]).qubit == t.qubit;
            assert(a[i].qubit == t.qubit);
        }
        lemma_clashes_none(a.drop_last(), t);
        assert(a[a.len() - 1].qubit != t.qubit);
    }
}

proof fn lemma_clashes_last_term(a: Seq<PauliTerm>, t: PauliTerm)
    requires
        distinct_qubits(a),
    ensures
        clashes(a, t) == (match last_term(a, t.qubit) {
            Some(s) => if s.basis != t.basis && s.basis != 'I' && t.basis != 'I' { 1nat } else { 0nat },
            None => 0nat,
        }),
    decreases a.len(),
{
    if a.len() > 0 {
        let d = a.drop_last();
        assert(distinct_qubits(d)) by {
            assert forall|i: int, j: int| 0 <= i < j < d.len() implies d[i].qubit != d[j].qubit by {
                assert(d[i] == a[i] && d[j] == a[j]);
            }
        }
        if a.last().qubit == t.qubit {
            if on_qubit(d, t.qubit) {
                let i = choose|i: int| 0 <= i < d.len() && (#[trigger] d[i]).qubit == t.qubit;
                assert(a[i].qubit == a[a.len() - 1].qubit);
            }
            lemma_clashes_none(d, t);
        } else {
            lemma_clashes_last_term(d, t);
        }
    }
}

proof fn lemma_anticommuting_pairs(a: Seq<PauliTerm>, b: Seq<PauliTerm>)
    requires
        distinct_qubits(a),
    ensures
        anticommuting(a, b) == clash_pairs(a, b),
    decreases b.len(),
{
    if b.len() > 0 {
        lemma_anticommuting_pairs(a, b.drop_last());
        lemma_clashes_last_term(a, b.last());
    }
}

proof fn lemma_clash_pairs_push_left(a: Seq<PauliTerm>, b: Seq<PauliTerm>, t: PauliTerm)
    ensures
        clash_pairs(a.push(t), b) == clash_pairs(a, b) + clashes(b, t),
    decreases b.len(),
{
    if b.len() > 0 {
        lemma_clash_pairs_push_left(a, b.drop_last(), t);
        assert(a.push(t).drop_last() =~= a);
        assert(clash(t, b.last()) == clash(b.last(), t));
    }
}

proof fn lemma_clash_pairs_swap(a: Seq<PauliTerm>, b: Seq<PauliTerm>)
    ensures
        clash_pairs(a, b) == clash_pairs(b, a),
    decreases a.len(),
{
    if a.len() > 0 {
        let d = a.drop_last();
        lemma_clash_pairs_swap(d, b);
        lemma_clash_pairs_push_left(d, b, a.last());
        assert(d.push(a.last()) =~= a);
        assert(clash_pairs(b, a) == clash_pairs(b, d) + clashes(b, a.last()));
    } else {
        lemma_clash_pairs_empty(b);
        assert(a =~= Seq::<PauliTerm>::empty());
    }
}

proof fn lemma_clash_pairs_empty(b: Seq<PauliTerm>)
    ensures
        clash_pairs(Seq::empty(), b) == 0,
    decreases b.len(),
{
    if b.len() > 0 {
        lemma_clash_pairs_empty(b.drop_last());
    }
}

/// Commuting is symmetric: for products without two terms on one qubit,
/// `a` commutes with `b` exactly when `b` commutes with `a`.
pub proof fn lemma_commutes_symmetric(a: Seq<PauliTerm>, b: Seq<PauliTerm>)
    requires
        distinct_qubits(a),
        distinct_qubits(b),
    ensures
        anticommuting(a, b) == anticommuting(b, a),
{
    lemma_anticommuting_pairs(a, b);
    lemma_anticommuting_pairs(b, a);
    lemma_clash_pairs_swap(a, b);
}


/// `(a, b)` is in the cyclic order X, Y, Z: the product `a * b` is `+i`
/// times the third basis.
pub open spec fn cyclic(a: char, b: char) -> bool {
    (a == 'X' && b == 'Y') || (a == 'Y' && b == 'Z') || (a == 'Z' && b == 'X')
}

/// `rem4` keeps the value modulo 4.
proof fn lemma_rem4(a: int)
    ensures
        (rem4(a) - a) % 4 == 0,
        -4 < rem4(a) < 4,
{
    if a >= 0 {
        vstd::arithmetic::div_mod::lemma_fundamental_div_mod(a, 4);
    } else {
        vstd::arithmetic::div_mod::lemma_fundamental_div_mod(-a, 4);
        assert(rem4(a) - a == 4 * ((-a) / 4));
        vstd::arithmetic::div_mod::lemma_mod_multiples_basic((-a) / 4, 4);
    }
}

/// Conjugating a Pauli term by the Clifford rotation of another on the same
/// qubit: when the bases commute the term is unchanged; otherwise the result
/// lies on the same qubit, its basis is the third Pauli basis, and its phase
/// is, modulo 4, the sum of both input phases, plus 2 when the two bases are
/// in cyclic order (`XY = iZ`, so `i * XY = -Z`), plus 2 more when the angle
/// exceeds pi; it lies strictly between -4 and 4, and is not negative when
/// neither input phase is. So raising either input phase by one raises the
/// result's phase by one.
pub proof fn lemma_conjugated_term(l: PauliTerm, r: PauliTerm, a: Angle)
    requires
        is_pauli(l.basis),
        is_pauli(r.basis),
        -4 < l.phase < 4,
        -4 < r.phase < 4,
    ensures
        bases_commute(l.basis, r.basis) ==> commuted_term(l, r, a) == r,
        !bases_commute(l.basis, r.basis) ==> {
            let t = commuted_term(l, r, a);
            &&& t.qubit == l.qubit
            &&& is_pauli(t.basis) && t.basis != 'I' && t.basis != l.basis && t.basis != r.basis
            &&& -4 < t.phase < 4
            &&& (l.phase >= 0 && r.phase >= 0 ==> 0 <= t.phase)
            &&& (t.phase - l.phase - r.phase - (if cyclic(l.basis, r.basis) { 2int } else { 0int })
                - (if a.numerator > a.denominator { 2int } else { 0int })) % 4 == 0
        },
{
    if !bases_commute(l.basis, r.basis) {
        let m = pauli_mul(l.basis, r.basis);
        let p0 = rem4(l.phase + r.phase);
        let p1 = rem4(p0 + m.1);
        let p = rem4(p1 + 1);
        lemma_rem4(l.phase + r.phase);
        lemma_rem4(p0 + m.1);
        lemma_rem4(p1 + 1);
        lemma_rem4(p + 2);
        assert(m.1 == (if cyclic(l.basis, r.basis) { 1int } else { 3int }));
        let t = commuted_term(l, r, a);
        let extra = if cyclic(l.basis, r.basis) { 2int } else { 0int };
        let half = if a.numerator > a.denominator { 2int } else { 0int };
        let p2 = if a.numerator > a.denominator { rem4(p + 2) } else { p };
        assert(t.phase == p2);
        // p2 - (l + r + m + 1 + half) is a multiple of 4, and m + 1 - extra is 0 or 4
        assert((p2 - (l.phase + r.phase + m.1 + 1 + half)) % 4 == 0) by {
            let x = p0 - (l.phase + r.phase);
            let y = p1 - (p0 + m.1);
            let z = p - (p1 + 1);
            let w = p2 - (p + half);
            assert(x % 4 == 0 && y % 4 == 0 && z % 4 == 0);
            assert(w % 4 == 0);
            assert(p2 - (l.phase + r.phase + m.1 + 1 + half) == x + y + z + w);
            vstd::arithmetic::div_mod::lemma_fundamental_div_mod(x, 4);
            vstd::arithmetic::div_mod::lemma_fundamental_div_mod(y, 4);
            vstd::arithmetic::div_mod::lemma_fundamental_div_mod(z, 4);
            vstd::arithmetic::div_mod::lemma_fundamental_div_mod(w, 4);
            let s = x / 4 + y / 4 + z / 4 + w / 4;
            assert(x + y + z + w == 4 * s);
            vstd::arithmetic::div_mod::lemma_mod_multiples_basic(s, 4);
        }
        assert((t.phase - l.phase - r.phase - extra - half) % 4 == 0) by {
            let d = p2 - (l.phase + r.phase + m.1 + 1 + half);
            let e = m.1 + 1 - extra;
            assert(e == 0 || e == 4);
            assert(t.phase - l.phase - r.phase - extra - half == d + e);
            vstd::arithmetic::div_mod::lemma_fundamental_div_mod(d, 4);
            if e == 4 {
                assert(d + e == 4 * (d / 4 + 1));
                vstd::arithmetic::div_mod::lemma_mod_multiples_basic(d / 4 + 1, 4);
            }
        }
    }
}

} // verus!
