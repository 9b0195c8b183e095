//! Translation of one operation of a gate-list circuit into the Pauli-product
//! rotations that implement it. An operation is written
//! `<Name>Gate(<param>(<q0>,<q1>,...)`, for example `CNOTGate([])@(0, 1)` or
//! `RZGate([0.25])@(3,)`; a name ending in `dg` is the inverse gate.
//!
//! The rotation angle of `RX`, `RY` and `RZ` comes from a floating-point
//! parameter; the caller converts it to an `Angle` (negated for the inverse
//! gates) and hands it in.
use vstd::prelude::*;
use crate::qasm::{all_digits, digits_value, parse_usize_spec, is_digit};
use crate::text::{str_chars, trim_bounds, trim_seq, sub_chars};
use crate::transpile::{Angle, PauliProduct, PauliTerm};

verus! {

/// The first position from `i` on that holds `c`, or the length.
pub open spec fn find_char(s: Seq<char>, c: char, i: int) -> int
    decreases s.len() - i,
{
    if i < 0 || i >= s.len() {
        s.len() as int
    } else if s[i] == c {
        i
    } else {
        find_char(s, c, i + 1)
    }
}

/// `s` without any trailing `c`.
pub open spec fn strip_end(s: Seq<char>, c: char) -> Seq<char>
    decreases s.len(),
{
    if s.len() > 0 && s.last() == c { strip_end(s.drop_last(), c) } else { s }
}

/// The pieces of `s` between the occurrences of `c`, as `str::split` gives
/// them: always at least one piece.
pub open spec fn split_on(s: Seq<char>, c: char) -> Seq<Seq<char>>
    decreases s.len(),
{
    if s.len() == 0 {
        seq![Seq::empty()]
    } else {
        let prev = split_on(s.drop_last(), c);
        if s.last() == c {
            prev.push(Seq::empty())
        } else {
            prev.update(prev.len() - 1, prev.last().push(s.last()))
        }
    }
}

/// What `i32::from_str` gives: an optional sign, then one or more decimal
/// digits whose signed value fits in an `i32`.
pub open spec fn parse_i32_spec(s: Seq<char>) -> Option<i32> {
    let signed = s.len() > 0 && (s[0] == '+' || s[0] == '-');
    let d = if signed { s.drop_first() } else { s };
    let v = if s.len() > 0 && s[0] == '-' { -(digits_value(d) as int) } else { digits_value(d) as int };
    if d.len() > 0 && all_digits(d) && i32::MIN <= v <= i32::MAX { Some(v as i32) } else { None }
}

/// The numbers of the first `k` pieces, each trimmed, or the first trimmed
/// piece that is not an `i32`.
pub open spec fn parse_pieces(pieces: Seq<Seq<char>>, k: int) -> Result<Seq<i32>, Seq<char>>
    decreases k,
{
    if k <= 0 {
        Ok(Seq::empty())
    } else {
        match parse_pieces(pieces, k - 1) {
            Err(e) => Err(e),
            Ok(v) => match parse_i32_spec(trim_seq(pieces[k - 1])) {
                Some(x) => Ok(v.push(x)),
                None => Err(trim_seq(pieces[k - 1])),
            },
        }
    }
}

/// The qubits of a location text such as `0, 1,)`: trailing `)` and then
/// trailing `,` removed, nothing for an empty text, else the comma-separated
/// numbers.
pub open spec fn location_spec(loc: Seq<char>) -> Result<Seq<i32>, Seq<char>> {
    let inner = strip_end(strip_end(loc, ')'), ',');
    if inner.len() == 0 {
        Ok(Seq::empty())
    } else {
        parse_pieces(split_on(inner, ','), split_on(inner, ',').len() as int)
    }
}

/// The number of bytes of `c` in UTF-8.
pub open spec fn utf8_len(c: char) -> int {
    if (c as u32) < 0x80 { 1 } else if (c as u32) < 0x800 { 2 } else if (c as u32) < 0x10000 { 3 } else { 4 }
}

/// `s` without its last `k` bytes, when those bytes are whole characters.
pub open spec fn cut_bytes(s: Seq<char>, k: int) -> Option<Seq<char>>
    decreases s.len(),
{
    if k == 0 {
        Some(s)
    } else if k < 0 || s.len() == 0 {
        None
    } else {
        cut_bytes(s.drop_last(), k - utf8_len(s.last()))
    }
}

/// `s` ends with `dg`.
pub open spec fn ends_dg(s: Seq<char>) -> bool {
    s.len() >= 2 && s[s.len() - 2] == 'd' && s[s.len() - 1] == 'g'
}

/// `s` without any trailing repetitions of `dg`.
pub open spec fn strip_dg(s: Seq<char>) -> Seq<char>
    decreases s.len(),
{
    if ends_dg(s) { strip_dg(s.subrange(0, s.len() - 2)) } else { s }
}

/// The gates that have a translation.
pub enum GateWord {
    Pauli(char),
    S,
    SqrtX,
    H,
    Cnot,
    Cz,
    T,
    Rotation(char),
    Barrier,
    Unknown,
}

/// Which gate a base name (without `dg`) denotes.
pub open spec fn gate_word(b: Seq<char>) -> GateWord {
    if b == seq!['X'] || b == seq!['Y'] || b == seq!['Z'] {
        GateWord::Pauli(b[0])
    } else if b == seq!['S'] {
        GateWord::S
    } else if b == seq!['S', 'q', 'r', 't', 'X'] {
        GateWord::SqrtX
    } else if b == seq!['H'] {
        GateWord::H
    } else if b == seq!['C', 'N', 'O', 'T'] {
        GateWord::Cnot
    } else if b == seq!['C', 'Z'] {
        GateWord::Cz
    } else if b == seq!['T'] {
        GateWord::T
    } else if b == seq!['R', 'X'] || b == seq!['R', 'Y'] || b == seq!['R', 'Z'] {
        GateWord::Rotation(b[1])
    } else if b == seq!['b', 'a', 'r'] {
        GateWord::Barrier
    } else {
        GateWord::Unknown
    }
}

/// The angle `n/d * pi` as `Angle::new` reduces it (the fractions used here
/// are already in lowest terms).
pub open spec fn frac(n: i32, d: i32, clifford: bool) -> Angle {
    Angle { numerator: n, denominator: d, is_clifford: clifford }
}

/// The term `basis` on qubit `q` with phase `phase`.
pub open spec fn tm(basis: char, phase: i32, q: i32) -> PauliTerm {
    PauliTerm { basis, phase, qubit: q }
}

/// A product as its terms and angle.
pub type ProductSpec = (Seq<PauliTerm>, Angle);

/// The products of a known gate on qubits `q0` and `q1`; `gate` is the name
/// with its `dg`, `dagger` whether it ends in `dg`. The inverse gates turn by
/// the opposite angles: S is a pi/4 rotation about Z (S-dagger 7pi/4, and its
/// term also carries phase -1), T a pi/8 rotation (T-dagger 15pi/8).
pub open spec fn gate_products(w: GateWord, gate: Seq<char>, dagger: bool, q0: i32, q1: i32, rotation: Option<Angle>) -> Seq<ProductSpec> {
    let pi_2 = frac(1, 2, true);
    let pi_4 = if dagger { frac(7, 4, true) } else { frac(1, 4, true) };
    let pi7_4 = if dagger { frac(1, 4, true) } else { frac(7, 4, true) };
    let pi_8 = if dagger { frac(15, 8, false) } else { frac(1, 8, false) };
    match w {
        GateWord::Pauli(b) => seq![(seq![tm(b, 0, q0)], pi_2)],
        GateWord::S => seq![(seq![tm('Z', if gate == seq!['S', 'd', 'g'] { -1i32 } else { 1i32 }, q0)], pi_4)],
        GateWord::SqrtX => seq![(seq![tm('X', 0, q0)], pi_4)],
        GateWord::H => seq![(seq![tm('Z', 0, q0)], pi_4), (seq![tm('X', 0, q0)], pi_4), (seq![tm('Z', 0, q0)], pi_4)],
        GateWord::Cnot => seq![
            (if q0 < q1 { seq![tm('Z', 0, q0), tm('X', 0, q1)] } else { seq![tm('X', 0, q1), tm('Z', 0, q0)] }, pi_4),
            (seq![tm('Z', 0, q0)], pi7_4),
            (seq![tm('X', 0, q1)], pi7_4)],
        GateWord::Cz => seq![(seq![tm('Z', 0, q0), tm('Z', 0, q1)], pi_4), (seq![tm('Z', 0, q0)], pi7_4), (seq![tm('Z', 0, q1)], pi7_4)],
        GateWord::T => seq![(seq![tm('Z', 0, q0)], pi_8)],
        GateWord::Rotation(b) => seq![(seq![tm(b, 0, q0)], rotation.unwrap())],
        _ => Seq::empty(),
    }
}

/// The name part (before the first `(`) of an operation.
pub open spec fn name_part(op: Seq<char>) -> Seq<char> {
    op.subrange(0, find_char(op, '(', 0))
}

/// The location part (after the second `(`, up to a third) of an operation.
pub open spec fn location_part(op: Seq<char>) -> Seq<char> {
    let i1 = find_char(op, '(', 0);
    let i2 = find_char(op, '(', i1 + 1);
    op.subrange(i2 + 1, find_char(op, '(', i2 + 1))
}

/// The operation has the two `(` that separate its name, parameter and location.
pub open spec fn has_parts(op: Seq<char>) -> bool {
    let i1 = find_char(op, '(', 0);
    i1 < op.len() && find_char(op, '(', i1 + 1) < op.len()
}

/// The inputs on which the translation stops with a panic: fewer than two
/// `(`; or, once the location reads, a name whose last four bytes are not
/// whole characters; or, once a first qubit is given, a gate without a
/// translation or a rotation without its angle.
pub open spec fn operation_panics(op: Seq<char>, rotation: Option<Angle>) -> bool {
    if !has_parts(op) {
        true
    } else {
        match location_spec(location_part(op)) {
            Err(_) => false,
            Ok(qs) => match cut_bytes(name_part(op), 4) {
                None => true,
                Some(gate) => qs.len() > 0 && {
                    let w = gate_word(strip_dg(gate));
                    w == GateWord::Unknown || (w is Rotation && rotation is None)
                },
            },
        }
    }
}

/// Why an operation could not be translated.
pub enum OperationError {
    /// A location entry, trimmed, that is not an `i32`.
    LocationNumber(Vec<char>),
    /// The location names no qubit.
    MissingFirstLocation,
}

/// The translation of an operation that does not panic: the products, or
/// the error (`Some` of the bad location entry, `None` for a missing qubit).
pub open spec fn operation_products(op: Seq<char>, rotation: Option<Angle>) -> Result<Seq<ProductSpec>, Option<Seq<char>>> {
    match location_spec(location_part(op)) {
        Err(e) => Err(Some(e)),
        Ok(qs) => {
            let gate = cut_bytes(name_part(op), 4).unwrap();
            if qs.len() == 0 {
                Err(None)
            } else {
                let q1 = if qs.len() > 1 { qs[1] } else { -1i32 };
                Ok(gate_products(gate_word(strip_dg(gate)), gate, ends_dg(gate), qs[0], q1, rotation))
            }
        }
    }
}

/// The products hold the given terms and angles, in layer 0.
pub open spec fn products_are(v: Seq<PauliProduct>, s: Seq<ProductSpec>) -> bool {
    &&& v.len() == s.len()
    &&& forall|i: int| 0 <= i < v.len() ==> (#[trigger] v[i]).terms@ == s[i].0 && v[i].angle == s[i].1 && v[i].layer == 0
}

/// The first position from `i` on that holds `c`, or the length.
fn find_char_exec(v: &Vec<char>, c: char, i: usize) -> (r: usize)
    requires
        i <= v@.len(),
    ensures
        r == find_char(v@, c, i as int),
        i <= r <= v@.len(),
{
    let mut k = i;
    while k < v.len() && v[k] != c
        invariant
            i <= k <= v@.len(),
            find_char(v@, c, k as int) == find_char(v@, c, i as int),
        decreases v@.len() - k,
    {
        k += 1;
    }
    k
}

/// Parses `v[a..b]` as `i32::from_str` would.
fn parse_i32(v: &Vec<char>, a: usize, b: usize) -> (r: Option<i32>)
    requires
        a <= b <= v@.len(),
    ensures
        r == parse_i32_spec(v@.subrange(a as int, b as int)),
{
    let ghost s = v@.subrange(a as int, b as int);
    let mut i = a;
    let mut neg = false;
    if i < b && (v[i] == '+' || v[i] == '-') {
        neg = v[i] == '-';
        i += 1;
    }
    let ghost d = if s.len() > 0 && (s[0] == '+' || s[0] == '-') { s.drop_first() } else { s };
    proof {
        assert(d =~= v@.subrange(i as int, b as int));
    }
    if i < b && v[i] == '+' {
        proof {
            assert(d[0] == '+');
            assert(!is_digit(d[0]));
        }
        return None;
    }
    let parsed = crate::qasm::parse_usize(v, i, b);
    proof {
        assert(d.len() > 0 ==> d[0] != '+');
    }
    match parsed {
        None => {
            proof {
                if d.len() > 0 && all_digits(d) {
                    assert(digits_value(d) > usize::MAX);
                    assert(usize::MAX >= u32::MAX);
                }
            }
            None
        },
        Some(n) => {
            if neg {
                if n <= 2147483648 {
                    let x: i64 = -(n as i64);
                    Some(x as i32)
                } else {
                    None
                }
            } else {
                if n <= 2147483647 {
                    Some(n as i32)
                } else {
                    None
                }
            }
        },
    }
}

/// Removes trailing `c` from `v`.
fn strip_end_exec(v: &mut Vec<char>, c: char)
    ensures
        final(v)@ == strip_end(old(v)@, c),
{
    while v.len() > 0 && v[v.len() - 1] == c
        invariant
            strip_end(v@, c) == strip_end(old(v)@, c),
        decreases v@.len(),
    {
        v.pop();
    }
}

proof fn lemma_split_step(s: Seq<char>, c: char, i: int)
    requires
        0 <= i < s.len(),
    ensures
        split_on(s.take(i + 1), c) == (if s[i] == c { split_on(s.take(i), c).push(Seq::empty()) } else {
            let prev = split_on(s.take(i), c);
            prev.update(prev.len() - 1, prev.last().push(s[i]))
        }),
{
    assert(s.take(i + 1).drop_last() =~= s.take(i));
}

proof fn lemma_split_len(s: Seq<char>, c: char)
    ensures
        split_on(s, c).len() >= 1,
    decreases s.len(),
{
    if s.len() > 0 {
        lemma_split_len(s.drop_last(), c);
    }
}

/// Parses the trimmed `piece`, extending `vals`; `Err` with the trimmed piece when it is not a number.
fn take_piece(piece: &Vec<char>, vals: &mut Vec<i32>) -> (r: Result<(), Vec<char>>)
    ensures
        match parse_i32_spec(trim_seq(piece@)) {
            Some(x) => r is Ok && final(vals)@ == old(vals)@.push(x),
            None => r matches Err(e) && e@ == trim_seq(piece@),
        },
{
    let (a, b) = trim_bounds(piece);
    match parse_i32(piece, a, b) {
        Some(x) => {
            vals.push(x);
            Ok(())
        },
        None => Err(sub_chars(piece, a, b)),
    }
}

/// The qubits of a location text, as `location_spec` gives them.
fn parse_location(loc: &Vec<char>) -> (r: Result<Vec<i32>, Vec<char>>)
    ensures
        match location_spec(loc@) {
            Ok(qs) => r matches Ok(v) && v@ == qs,
            Err(e) => r matches Err(p) && p@ == e,
        },
{
    let mut inner = loc.clone();
    assert(inner@ == loc@);
    strip_end_exec(&mut inner, ')');
    strip_end_exec(&mut inner, ',');
    let mut vals: Vec<i32> = Vec::new();
    if inner.len() == 0 {
        return Ok(vals);
    }
    let ghost s = inner@;
    let mut cur: Vec<char> = Vec::new();
    let mut i: usize = 0;
    proof {
        assert(s.take(0) =~= Seq::<char>::empty());
    }
    while i < inner.len()
        invariant
            i <= s.len(),
            s == inner@,
            s == strip_end(strip_end(loc@, ')'), ','),
            s.len() > 0,
            split_on(s.take(i as int), ',').len() >= 1,
            cur@ == split_on(s.take(i as int), ',').last(),
            parse_pieces(split_on(s.take(i as int), ','), split_on(s.take(i as int), ',').len() - 1) == Ok::<Seq<i32>, Seq<char>>(vals@),
        decreases s.len() - i,
    {
        let ghost sp = split_on(s.take(i as int), ',');
        proof {
            lemma_split_step(s, ',', i as int);
            lemma_split_len(s.take(i + 1), ',');
        }
        if inner[i] == ',' {
            let ghost sp2 = split_on(s.take(i + 1), ',');
            proof {
                assert(sp2 == sp.push(Seq::empty()));
                assert(sp2[sp.len() - 1] == sp.last());
                assert(sp2.subrange(0, sp.len() as int) =~= sp);
            }
            match take_piece(&cur, &mut vals) {
                Ok(()) => {},
                Err(e) => {
                    proof {
                        lemma_pieces_prefix(sp2, sp, sp.len() as int);
                        assert(parse_pieces(sp2, sp.len() as int) == Err::<Seq<i32>, Seq<char>>(e@));
                        lemma_pieces_err_stays(s, i as int + 1, sp.len() as int, e@);
                    }
                    return Err(e);
                },
            }
            cur = Vec::new();
            proof {
                lemma_pieces_prefix(sp2, sp, sp.len() as int - 1);
            }
        } else {
            let ghost sp2 = split_on(s.take(i + 1), ',');
            proof {
                lemma_pieces_prefix(sp2, sp, sp.len() as int - 1);
            }
            cur.push(inner[i]);
        }
        i += 1;
    }
    proof {
        assert(s.take(s.len() as int) =~= s);
    }
    let ghost sp = split_on(s, ',');
    match take_piece(&cur, &mut vals) {
        Ok(()) => Ok(vals),
        Err(e) => Err(e),
    }
}

/// `parse_pieces` of the first `k` pieces depends only on those pieces.
proof fn lemma_pieces_prefix(a: Seq<Seq<char>>, b: Seq<Seq<char>>, k: int)
    requires
        0 <= k <= a.len(),
        k <= b.len(),
        forall|j: int| 0 <= j < k ==> a[j] == b[j],
    ensures
        parse_pieces(a, k) == parse_pieces(b, k),
    decreases k,
{
    if k > 0 {
        lemma_pieces_prefix(a, b, k - 1);
    }
}

/// Once a piece fails, the location fails with it, however the text goes on.
proof fn lemma_pieces_err_stays(s: Seq<char>, i: int, k: int, e: Seq<char>)
    requires
        1 <= i <= s.len(),
        0 <= k < split_on(s.take(i), ',').len(),
        parse_pieces(split_on(s.take(i), ','), k) == Err::<Seq<i32>, Seq<char>>(e),
    ensures
        parse_pieces(split_on(s, ','), split_on(s, ',').len() as int) == Err::<Seq<i32>, Seq<char>>(e),
    decreases s.len() - i,
{
    lemma_split_len(s.take(i), ',');
    if i < s.len() {
        let sp = split_on(s.take(i), ',');
        lemma_split_step(s, ',', i);
        let sp2 = split_on(s.take(i + 1), ',');
        lemma_pieces_prefix(sp2, sp, k);
        lemma_pieces_err_stays(s, i + 1, k, e);
    } else {
        assert(s.take(i) =~= s);
        lemma_pieces_err_grow(split_on(s, ','), k, split_on(s, ',').len() as int, e);
    }
}

proof fn lemma_pieces_err_grow(p: Seq<Seq<char>>, k: int, m: int, e: Seq<char>)
    requires
        0 <= k <= m,
        parse_pieces(p, k) == Err::<Seq<i32>, Seq<char>>(e),
    ensures
        parse_pieces(p, m) == Err::<Seq<i32>, Seq<char>>(e),
    decreases m - k,
{
    if m > k {
        lemma_pieces_err_grow(p, k, m - 1, e);
    }
}


/// `v` spells the one-letter word `a`.
fn eq1(v: &Vec<char>, a: char) -> (r: bool)
    ensures
        r == (v@ == seq![a]),
{
    let r = v.len() == 1 && v[0] == a;
    proof {
        if r { assert(v@ =~= seq![a]); } else if v@ == seq![a] { assert(v@[0] == a); }
    }
    r
}

/// `v` spells `ab`.
fn eq2(v: &Vec<char>, a: char, b: char) -> (r: bool)
    ensures
        r == (v@ == seq![a, b]),
{
    let r = v.len() == 2 && v[0] == a && v[1] == b;
    proof {
        if r { assert(v@ =~= seq![a, b]); } else if v@ == seq![a, b] { assert(v@[0] == a && v@[1] == b); }
    }
    r
}

/// `v` spells `abc`.
fn eq3(v: &Vec<char>, a: char, b: char, c: char) -> (r: bool)
    ensures
        r == (v@ == seq![a, b, c]),
{
    let r = v.len() == 3 && v[0] == a && v[1] == b && v[2] == c;
    proof {
        if r { assert(v@ =~= seq![a, b, c]); } else if v@ == seq![a, b, c] { assert(v@[0] == a && v@[1] == b && v@[2] == c); }
    }
    r
}

/// `v` spells `abcd`.
fn eq4(v: &Vec<char>, a: char, b: char, c: char, d: char) -> (r: bool)
    ensures
        r == (v@ == seq![a, b, c, d]),
{
    let r = v.len() == 4 && v[0] == a && v[1] == b && v[2] == c && v[3] == d;
    proof {
        if r { assert(v@ =~= seq![a, b, c, d]); } else if v@ == seq![a, b, c, d] { assert(v@[0] == a && v@[1] == b && v@[2] == c && v@[3] == d); }
    }
    r
}

/// `v` spells `abcde`.
fn eq5(v: &Vec<char>, a: char, b: char, c: char, d: char, e: char) -> (r: bool)
    ensures
        r == (v@ == seq![a, b, c, d, e]),
{
    let r = v.len() == 5 && v[0] == a && v[1] == b && v[2] == c && v[3] == d && v[4] == e;
    proof {
        if r { assert(v@ =~= seq![a, b, c, d, e]); } else if v@ == seq![a, b, c, d, e] {
            assert(v@[0] == a && v@[1] == b && v@[2] == c && v@[3] == d && v@[4] == e);
        }
    }
    r
}

/// Which gate the base name `b` denotes.
fn classify(b: &Vec<char>) -> (w: GateWord)
    ensures
        w == gate_word(b@),
{
    if eq1(b, 'X') || eq1(b, 'Y') || eq1(b, 'Z') {
        GateWord::Pauli(b[0])
    } else if eq1(b, 'S') {
        GateWord::S
    } else if eq5(b, 'S', 'q', 'r', 't', 'X') {
        GateWord::SqrtX
    } else if eq1(b, 'H') {
        GateWord::H
    } else if eq4(b, 'C', 'N', 'O', 'T') {
        GateWord::Cnot
    } else if eq2(b, 'C', 'Z') {
        GateWord::Cz
    } else if eq1(b, 'T') {
        GateWord::T
    } else if eq2(b, 'R', 'X') || eq2(b, 'R', 'Y') || eq2(b, 'R', 'Z') {
        GateWord::Rotation(b[1])
    } else if eq3(b, 'b', 'a', 'r') {
        GateWord::Barrier
    } else {
        GateWord::Unknown
    }
}

/// The number of characters that remain of `name` without its last four
/// bytes, when those bytes are whole characters.
fn cut_name(name: &Vec<char>) -> (r: Option<usize>)
    ensures
        match cut_bytes(name@, 4) {
            Some(g) => r matches Some(k) && k <= name@.len() && g == name@.subrange(0, k as int),
            None => r is None,
        },
{
    let mut k = name.len();
    let mut need: i64 = 4;
    assert(name@.subrange(0, k as int) =~= name@);
    while need > 0 && k > 0
        invariant
            k <= name@.len(),
            need <= 4,
            cut_bytes(name@.subrange(0, k as int), need as int) == cut_bytes(name@, 4),
        decreases k,
    {
        let ghost t = name@.subrange(0, k as int);
        let u = name[k - 1] as u32;
        let l: i64 = if u < 0x80 { 1 } else if u < 0x800 { 2 } else if u < 0x10000 { 3 } else { 4 };
        proof {
            assert(t.drop_last() =~= name@.subrange(0, k - 1));
            assert(t.last() == name@[k - 1]);
        }
        need = need - l;
        k -= 1;
    }
    if need == 0 {
        Some(k)
    } else {
        None
    }
}

/// `v[..k]` without any trailing repetitions of `dg`: the kept length.
fn strip_dg_len(v: &Vec<char>, k: usize) -> (r: usize)
    requires
        k <= v@.len(),
    ensures
        r <= k,
        v@.subrange(0, r as int) == strip_dg(v@.subrange(0, k as int)),
{
    let mut m = k;
    while m >= 2 && v[m - 2] == 'd' && v[m - 1] == 'g'
        invariant
            m <= k <= v@.len(),
            strip_dg(v@.subrange(0, m as int)) == strip_dg(v@.subrange(0, k as int)),
        decreases m,
    {
        proof {
            assert(v@.subrange(0, m as int).subrange(0, m - 2) =~= v@.subrange(0, m - 2));
        }
        m -= 2;
    }
    m
}

/// A single term.
fn one_term(basis: char, phase: i32, q: i32) -> (r: Vec<PauliTerm>)
    ensures
        r@ == seq![tm(basis, phase, q)],
{
    let mut r: Vec<PauliTerm> = Vec::new();
    r.push(PauliTerm { basis, phase, qubit: q });
    assert(r@ =~= seq![tm(basis, phase, q)]);
    r
}

/// Two terms, in the order given.
fn two_terms(b0: char, q0: i32, b1: char, q1: i32) -> (r: Vec<PauliTerm>)
    ensures
        r@ == seq![tm(b0, 0, q0), tm(b1, 0, q1)],
{
    let mut r: Vec<PauliTerm> = Vec::new();
    r.push(PauliTerm { basis: b0, phase: 0, qubit: q0 });
    r.push(PauliTerm { basis: b1, phase: 0, qubit: q1 });
    assert(r@ =~= seq![tm(b0, 0, q0), tm(b1, 0, q1)]);
    r
}

/// The products of a known gate, as `gate_products` lists them.
fn build_products(w: GateWord, is_sdg: bool, dagger: bool, q0: i32, q1: i32, rotation: Option<Angle>) -> (v: Vec<PauliProduct>)
    requires
        w is Rotation ==> rotation is Some,
    ensures
        forall|gate: Seq<char>| (gate == seq!['S', 'd', 'g']) == is_sdg
            ==> products_are(v@, #[trigger] gate_products(w, gate, dagger, q0, q1, rotation)),
{
    let pi_2 = Angle { numerator: 1, denominator: 2, is_clifford: true };
    let pi_4 = if dagger { Angle { numerator: 7, denominator: 4, is_clifford: true } } else { Angle { numerator: 1, denominator: 4, is_clifford: true } };
    let pi7_4 = if dagger { Angle { numerator: 1, denominator: 4, is_clifford: true } } else { Angle { numerator: 7, denominator: 4, is_clifford: true } };
    let pi_8 = if dagger { Angle { numerator: 15, denominator: 8, is_clifford: false } } else { Angle { numerator: 1, denominator: 8, is_clifford: false } };
    let mut v: Vec<PauliProduct> = Vec::new();
    match w {
        GateWord::Pauli(b) => {
            v.push(PauliProduct::new(one_term(b, 0, q0), pi_2));
        },
        GateWord::S => {
            let phase: i32 = if is_sdg { -1 } else { 1 };
            v.push(PauliProduct::new(one_term('Z', phase, q0), pi_4));
        },
        GateWord::SqrtX => {
            v.push(PauliProduct::new(one_term('X', 0, q0), pi_4));
        },
        GateWord::H => {
            v.push(PauliProduct::new(one_term('Z', 0, q0), pi_4));
            v.push(PauliProduct::new(one_term('X', 0, q0), pi_4));
            v.push(PauliProduct::new(one_term('Z', 0, q0), pi_4));
        },
        GateWord::Cnot => {
            let first = if q0 < q1 { two_terms('Z', q0, 'X', q1) } else { two_terms('X', q1, 'Z', q0) };
            v.push(PauliProduct::new(first, pi_4));
            v.push(PauliProduct::new(one_term('Z', 0, q0), pi7_4));
            v.push(PauliProduct::new(one_term('X', 0, q1), pi7_4));
        },
        GateWord::Cz => {
            v.push(PauliProduct::new(two_terms('Z', q0, 'Z', q1), pi_4));
            v.push(PauliProduct::new(one_term('Z', 0, q0), pi7_4));
            v.push(PauliProduct::new(one_term('Z', 0, q1), pi7_4));
        },
        GateWord::T => {
            v.push(PauliProduct::new(one_term('Z', 0, q0), pi_8));
        },
        GateWord::Rotation(b) => {
            let a = match rotation { Some(a) => a, None => pi_2 };
            v.push(PauliProduct::new(one_term(b, 0, q0), a));
        },
        _ => {},
    }
    v
}

/// Whether translating `op` with the given rotation angle would stop with a
/// panic (see `operation_panics`).
pub fn operation_would_panic(op: &str, rotation: &Option<Angle>) -> (b: bool)
    ensures
        b == operation_panics(op@, *rotation),
{
    let v = str_chars(op);
    let i1 = find_char_exec(&v, '(', 0);
    if i1 >= v.len() {
        return true;
    }
    let i2 = find_char_exec(&v, '(', i1 + 1);
    if i2 >= v.len() {
        return true;
    }
    let i3 = find_char_exec(&v, '(', i2 + 1);
    let loc = sub_chars(&v, i2 + 1, i3);
    let qs = match parse_location(&loc) {
        Ok(q) => q,
        Err(_) => { return false; },
    };
    let name = sub_chars(&v, 0, i1);
    let k = match cut_name(&name) {
        Some(k) => k,
        None => { return true; },
    };
    if qs.len() == 0 {
        return false;
    }
    let bl = strip_dg_len(&name, k);
    let base = sub_chars(&name, 0, bl);
    proof {
        assert(name@.subrange(0, k as int).subrange(0, bl as int) =~= name@.subrange(0, bl as int));
    }
    let w = classify(&base);
    match w {
        GateWord::Unknown => true,
        GateWord::Rotation(_) => rotation.is_none(),
        _ => false,
    }
}

/// Translates one operation into its Pauli-product rotations: the location's
/// qubits are read first (a bad entry is an error), then the name
/// (without its `Gate` suffix and any `dg`) picks the products on the first
/// two qubits (`-1` when there is no second); a location without qubits is
/// an error. `rotation` is the angle of an `RX`, `RY` or `RZ` parameter.
pub fn products_from_operation(op: &str, rotation: Option<Angle>) -> (r: Result<Vec<PauliProduct>, OperationError>)
    requires
        !operation_panics(op@, rotation),
    ensures
        match operation_products(op@, rotation) {
            Ok(s) => r matches Ok(v) && products_are(v@, s),
            Err(Some(e)) => r matches Err(OperationError::LocationNumber(p)) && p@ == e,
            Err(None) => r matches Err(OperationError::MissingFirstLocation),
        },
{
    let v = str_chars(op);
    proof {
        assert(has_parts(op@));
    }
    let vl = v.len();
    let i1 = find_char_exec(&v, '(', 0);
    proof {
        assert(v@ == op@);
        assert(i1 == find_char(op@, '(', 0));
        assert(i1 < v@.len());
        assert(i1 < vl);
    }
    let i2 = find_char_exec(&v, '(', i1 + 1);
    proof {
        assert(i2 == find_char(op@, '(', i1 + 1));
        assert(i2 < v@.len());
        assert(i2 < vl);
    }
    let i3 = find_char_exec(&v, '(', i2 + 1);
    let loc = sub_chars(&v, i2 + 1, i3);
    let qs = match parse_location(&loc) {
        Ok(q) => q,
        Err(e) => { return Err(OperationError::LocationNumber(e)); },
    };
    let name = sub_chars(&v, 0, i1);
    let k = cut_name(&name).unwrap();
    if qs.len() == 0 {
        return Err(OperationError::MissingFirstLocation);
    }
    let ghost gate = name@.subrange(0, k as int);
    let bl = strip_dg_len(&name, k);
    let base = sub_chars(&name, 0, bl);
    proof {
        assert(name@.subrange(0, k as int).subrange(0, bl as int) =~= name@.subrange(0, bl as int));
    }
    let dagger = k >= 2 && name[k - 2] == 'd' && name[k - 1] == 'g';
    let is_sdg = k == 3 && name[0] == 'S' && name[1] == 'd' && name[2] == 'g';
    proof {
        assert(dagger == ends_dg(gate));
        if is_sdg { assert(gate =~= seq!['S', 'd', 'g']); } else if gate == seq!['S', 'd', 'g'] { assert(gate[0] == 'S' && gate[1] == 'd' && gate[2] == 'g'); }
    }
    let w = classify(&base);
    let q0 = qs[0];
    let q1 = if qs.len() > 1 { qs[1] } else { -1 };
    Ok(build_products(w, is_sdg, dagger, q0, q1, rotation))
}


/// CZ is symmetric in its two qubits: besides the rotation of `Z` on both
/// qubits, its translation holds exactly one single-qubit `Z` rotation on
/// each of the two qubits, both by the same angle; so CZ on `(a, b)` and on
/// `(b, a)` give the same single-qubit corrections, in some order.
pub proof fn lemma_cz_symmetric(gate: Seq<char>, dagger: bool, a: i32, b: i32, rotation: Option<Angle>)
    ensures
        ({
            let s = gate_products(GateWord::Cz, gate, dagger, a, b, rotation);
            let t = gate_products(GateWord::Cz, gate, dagger, b, a, rotation);
            &&& s.len() == 3
            &&& s[0].0.len() == 2 && s[0].0[0].basis == 'Z' && s[0].0[1].basis == 'Z'
            &&& s[0].0[0].qubit == a && s[0].0[1].qubit == b
            &&& s[1].0.len() == 1 && s[2].0.len() == 1
            &&& s[1].0[0].basis == 'Z' && s[2].0[0].basis == 'Z'
            &&& s[1].0[0].phase == 0 && s[2].0[0].phase == 0
            &&& s[1].1 == s[2].1
            &&& ((s[1].0[0].qubit == a && s[2].0[0].qubit == b) || (s[1].0[0].qubit == b && s[2].0[0].qubit == a))
            &&& t.len() == 3
            &&& ((s[1] == t[1] && s[2] == t[2]) || (s[1] == t[2] && s[2] == t[1]))
        }),
{
}

} // verus!
